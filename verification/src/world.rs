use crate::game::{alive_count, best_after, first_player, lemma_models_push, lemma_models_update, lemma_stamps_refl, lemma_stamps_trans, models, stamps_follow, Game};
use crate::outside::random_in_range;
use crate::types::{abs_int, bot_color, bot_palette, delta_x, delta_y, fits_i32, in_bounds, make_snake, manhattan, on_board, reverse_of, settings_for, taxicab, Color, Difficulty, Direction, GameSettings, Point, Snake, SnakeModel, HEIGHT, MAX_BOTS, WIDTH};
use vstd::prelude::*;

verus! {

/// The player snake as a round starts: three cells long, heading right,
/// its head a quarter of the way across the board on the middle row.
pub open spec fn player_start() -> SnakeModel {
    let start = Point { x: (WIDTH / 4) as i32, y: (HEIGHT / 2) as i32 };
    SnakeModel {
        id: 0,
        body: seq![
            start,
            start.stepped(Direction::Left),
            start.stepped(Direction::Left).stepped(Direction::Left),
        ],
        dir: Direction::Right,
        next_dir: Direction::Right,
        pending_growth: 0,
        is_player: true,
        alive: true,
        color: Color::Cyan,
    }
}

/// Where bot `i` of `bots` starts: the bots share out the rows evenly, three
/// quarters of the way across, every second one a column further right.
pub open spec fn bot_start(i: int, bots: int) -> Point {
    Point {
        x: if i % 2 == 0 {
            (WIDTH * 3 / 4) as i32
        } else {
            (WIDTH * 3 / 4 + 1) as i32
        },
        y: ((i + 1) * HEIGHT / (bots + 1)) as i32,
    }
}

/// Bot `i` of `bots` as a round starts: three cells long, heading left.
pub open spec fn bot_snake(i: int, bots: int) -> SnakeModel {
    let start = bot_start(i, bots);
    SnakeModel {
        id: (i + 1) as usize,
        body: seq![
            start,
            start.stepped(Direction::Right),
            start.stepped(Direction::Right).stepped(Direction::Right),
        ],
        dir: Direction::Left,
        next_dir: Direction::Left,
        pending_growth: 0,
        is_player: false,
        alive: true,
        color: bot_palette(i as nat),
    }
}

/// The number of bots that a round with the given setting spawns.
pub open spec fn capped_bots(bot_count: int) -> int {
    if bot_count <= MAX_BOTS {
        bot_count
    } else {
        MAX_BOTS as int
    }
}

/// The snakes of a fresh round: the player, then the bots.
pub open spec fn start_line_up(bot_count: int) -> Seq<SnakeModel> {
    let bots = capped_bots(bot_count);
    Seq::new(
        (bots + 1) as nat,
        |k: int|
            if k == 0 {
                player_start()
            } else {
                bot_snake(k - 1, bots)
            },
    )
}

/// The snakes are those a fresh round places.
pub open spec fn spawned_snakes(m: Seq<SnakeModel>, bot_count: int) -> bool {
    m == start_line_up(bot_count)
}

/// Some living snake covers the cell with a part of its body.
pub open spec fn occupied(m: Seq<SnakeModel>, p: Point) -> bool {
    exists|k: int, j: int|
        0 <= k < m.len() && m[k].alive && 0 <= j < m[k].body.len() && #[trigger] m[k].body[j]
            == p
}

/// A cell where a new fruit may appear: on the board, free of fruit and of living snakes.
pub open spec fn free_cell(fruits: Seq<Point>, m: Seq<SnakeModel>, p: Point) -> bool {
    on_board(p) && !fruits.contains(p) && !occupied(m, p)
}

/// Every fruit lies on a free cell given the fruits before it.
pub open spec fn fruits_placed(fruits: Seq<Point>, m: Seq<SnakeModel>) -> bool {
    forall|k: int| 0 <= k < fruits.len() ==> free_cell(fruits.take(k), m, #[trigger] fruits[k])
}

/// The first living snake whose head is on cell `p`, if any.
pub open spec fn eater_of(m: Seq<SnakeModel>, p: Point, n: int) -> Option<int>
    decreases n,
{
    if n <= 0 {
        None
    } else {
        match eater_of(m, p, n - 1) {
            Some(k) => Some(k),
            None => if m[n - 1].live_head() == Some(p) {
                Some(n - 1)
            } else {
                None
            },
        }
    }
}

/// The fruits among the first `n` that no living snake's head is on.
pub open spec fn uneaten(m: Seq<SnakeModel>, fruits: Seq<Point>, n: int) -> Seq<Point>
    decreases n,
{
    if n <= 0 {
        Seq::empty()
    } else if eater_of(m, fruits[n - 1], m.len() as int) is None {
        uneaten(m, fruits, n - 1).push(fruits[n - 1])
    } else {
        uneaten(m, fruits, n - 1)
    }
}

/// How many of the first `n` fruits snake `k` eats.
pub open spec fn eaten_by(m: Seq<SnakeModel>, fruits: Seq<Point>, k: int, n: int) -> nat
    decreases n,
{
    if n <= 0 {
        0
    } else {
        eaten_by(m, fruits, k, n - 1) + if eater_of(m, fruits[n - 1], m.len() as int) == Some(
            k,
        ) {
            1nat
        } else {
            0nat
        }
    }
}

/// The snakes after the fruit of a tick is eaten: each fruit goes to the first living
/// snake whose head is on it, and that snake's pending growth rises by one per fruit.
pub open spec fn after_fruit(m: Seq<SnakeModel>, fruits: Seq<Point>) -> Seq<SnakeModel> {
    Seq::new(
        m.len(),
        |k: int|
            m[k].with_state(
                m[k].alive,
                m[k].pending_growth + eaten_by(m, fruits, k, fruits.len() as int),
            ),
    )
}

pub proof fn lemma_eaten_by_bound(m: Seq<SnakeModel>, fruits: Seq<Point>, k: int, n: int)
    requires
        0 <= n <= fruits.len(),
    ensures
        eaten_by(m, fruits, k, n) <= n,
    decreases n,
{
    if n > 0 {
        lemma_eaten_by_bound(m, fruits, k, n - 1);
    }
}

proof fn lemma_eater_same(m0: Seq<SnakeModel>, m1: Seq<SnakeModel>, p: Point, n: int)
    requires
        0 <= n <= m0.len(),
        m0.len() == m1.len(),
        forall|k: int| 0 <= k < m0.len() ==> (#[trigger] m1[k]).live_head() == m0[k].live_head(),
    ensures
        eater_of(m1, p, n) == eater_of(m0, p, n),
    decreases n,
{
    if n > 0 {
        lemma_eater_same(m0, m1, p, n - 1);
        assert(m1[n - 1].live_head() == m0[n - 1].live_head());
    }
}

proof fn lemma_eater_stays(m: Seq<SnakeModel>, p: Point, n: int, t: int)
    requires
        0 <= n <= t <= m.len(),
        eater_of(m, p, n) is Some,
    ensures
        eater_of(m, p, t) == eater_of(m, p, n),
    decreases t - n,
{
    if t > n {
        lemma_eater_stays(m, p, n, t - 1);
    }
}

/// The first of the drawn cells that is free, if any.
pub open spec fn first_free(fruits: Seq<Point>, m: Seq<SnakeModel>, draws: Seq<Point>) -> Option<
    Point,
>
    decreases draws.len(),
{
    if draws.len() == 0 {
        None
    } else {
        match first_free(fruits, m, draws.drop_last()) {
            Some(p) => Some(p),
            None => if free_cell(fruits, m, draws.last()) {
                Some(draws.last())
            } else {
                None
            },
        }
    }
}

/// What a search for a free cell may give: the first free one among cells of the
/// board drawn one after the other, the drawing stopping at a free cell or after
/// five hundred draws.
pub open spec fn search_outcome(fruits: Seq<Point>, m: Seq<SnakeModel>, r: Option<Point>) -> bool {
    exists|draws: Seq<Point>|
        {
            &&& draws.len() <= 500
            &&& forall|i: int| 0 <= i < draws.len() ==> on_board(#[trigger] draws[i])
            &&& first_free(fruits, m, draws) == r
            &&& r is None ==> draws.len() == 500
        }
}

impl Game {
    /// Places the player and `min(bot_count, MAX_BOTS)` bots after the snakes already
    /// there, then records the high score.
    pub fn spawn_snakes(&mut self)
        ensures
            final(self).snake_models() == old(self).snake_models() + start_line_up(
                old(self).settings.bot_count as int,
            ),
            final(self).high_score as int == best_after(
                old(self).high_score as int,
                final(self).snake_models(),
            ),
            forall|k: int|
                0 <= k < old(self).snakes@.len() ==> final(self).snakes@[k] == old(self).snakes@[k],
            forall|k: int|
                old(self).snakes@.len() <= k < final(self).snakes@.len() ==> (#[trigger] final(self).snakes@[k]).eliminated_at is None,
            final(self).settings == old(self).settings,
            final(self).fruits@ == old(self).fruits@,
            final(self).quit_requested == old(self).quit_requested,
    {
        let ghost old_snakes = self.snakes@;
        let player = make_snake(
            0,
            Point { x: WIDTH / 4, y: HEIGHT / 2 },
            Direction::Right,
            true,
            Color::Cyan,
        );
        self.snakes.push(player);
        let bot_count: usize = if self.settings.bot_count <= MAX_BOTS {
            self.settings.bot_count
        } else {
            MAX_BOTS
        };
        let ghost plan = start_line_up(self.settings.bot_count as int);
        proof {
            lemma_models_push(old_snakes, player);
            assert(plan[0] == player_start());
            assert(models(self.snakes@) =~= models(old_snakes) + plan.take(1));
        }
        let mut i: usize = 0;
        while i < bot_count
            invariant
                bot_count == capped_bots(old(self).settings.bot_count as int),
                bot_count <= MAX_BOTS,
                i <= bot_count,
                plan == start_line_up(old(self).settings.bot_count as int),
                self.settings == old(self).settings,
                self.fruits@ == old(self).fruits@,
                self.quit_requested == old(self).quit_requested,
                self.high_score == old(self).high_score,
                self.snakes@.len() == old_snakes.len() + i + 1,
                old_snakes == old(self).snakes@,
                forall|k: int| 0 <= k < old_snakes.len() ==> self.snakes@[k] == old_snakes[k],
                forall|k: int|
                    old_snakes.len() <= k < self.snakes@.len() ==> (#[trigger] self.snakes@[
                        k
                    ]).eliminated_at is None,
                models(self.snakes@) == models(old_snakes) + plan.take(i + 1),
            decreases bot_count - i,
        {
            let lane = i as i32 + 1;
            let y = lane * HEIGHT / (bot_count as i32 + 1);
            let x = if i % 2 == 0 {
                WIDTH * 3 / 4
            } else {
                WIDTH * 3 / 4 + 1
            };
            let bot = make_snake(i + 1, Point { x, y }, Direction::Left, false, bot_color(i));
            let ghost prev = self.snakes@;
            self.snakes.push(bot);
            proof {
                lemma_models_push(prev, bot);
                assert(plan.take(i + 2) =~= plan.take(i + 1).push(plan[i + 1]));
                assert(bot@ == bot_snake(i as int, bot_count as int));
                assert(plan[i + 1] == bot_snake(i as int, bot_count as int));
                assert(models(self.snakes@) =~= models(old_snakes) + plan.take(i + 2));
            }
            i += 1;
        }
        assert(plan.take(bot_count + 1) =~= plan);
        self.update_high_score();
    }

    /// Moves every snake one step (dead snakes stay where they are).
    pub fn move_snakes(&mut self)
        requires
            forall|k: int|
                0 <= k < old(self).snakes@.len() ==> (#[trigger] old(self).snakes@[k])@.can_advance(),
        ensures
            final(self).snake_models() == Seq::new(
                old(self).snakes@.len(),
                |k: int| old(self).snake_models()[k].advanced(),
            ),
            forall|k: int|
                0 <= k < old(self).snakes@.len() ==> (#[trigger] final(self).snakes@[k]).eliminated_at
                    == old(self).snakes@[k].eliminated_at,
            final(self).same_but_snakes(&*old(self)),
    {
        let n = self.snakes.len();
        let mut i: usize = 0;
        while i < n
            invariant
                n == self.snakes@.len() == old(self).snakes@.len(),
                i <= n,
                self.same_but_snakes(&*old(self)),
                forall|k: int| i <= k < n ==> self.snakes@[k] == old(self).snakes@[k],
                forall|k: int| 0 <= k < i ==> (#[trigger] self.snakes@[k])@ == old(self).snakes@[k]@.advanced(),
                forall|k: int|
                    0 <= k < n ==> (#[trigger] self.snakes@[k]).eliminated_at == old(self).snakes@[k].eliminated_at,
                forall|k: int|
                    0 <= k < old(self).snakes@.len() ==> (#[trigger] old(self).snakes@[k])@.can_advance(),
            decreases n - i,
        {
            self.snakes[i].move_forward();
            i += 1;
        }
        assert(self.snake_models() =~= Seq::new(
            old(self).snakes@.len(),
            |k: int| old(self).snake_models()[k].advanced(),
        ));
    }

    /// Each fruit under the head of a living snake is eaten by the first such snake,
    /// which gains one unit of pending growth; the other fruits stay, in order.
    pub fn resolve_fruit_eating(&mut self)
        requires
            forall|k: int|
                0 <= k < old(self).snakes@.len() ==> #[trigger] old(self).snakes@[k].pending_growth
                    + old(self).fruits@.len() <= usize::MAX,
        ensures
            final(self).snake_models() == after_fruit(old(self).snake_models(), old(self).fruits@),
            final(self).fruits@ == uneaten(
                old(self).snake_models(),
                old(self).fruits@,
                old(self).fruits@.len() as int,
            ),
            forall|k: int|
                0 <= k < old(self).snakes@.len() ==> (#[trigger] final(self).snakes@[k]).eliminated_at
                    == old(self).snakes@[k].eliminated_at,
            final(self).settings == old(self).settings,
            final(self).high_score == old(self).high_score,
            final(self).quit_requested == old(self).quit_requested,
    {
        let ghost m0 = self.snake_models();
        let ghost f0 = self.fruits@;
        let n = self.snakes.len();
        let mut kept: Vec<Point> = Vec::new();
        let mut fi: usize = 0;
        while fi < self.fruits.len()
            invariant
                n == self.snakes@.len() == m0.len(),
                m0 == old(self).snake_models(),
                f0 == old(self).fruits@,
                self.fruits@ == f0,
                fi <= f0.len(),
                self.settings == old(self).settings,
                self.high_score == old(self).high_score,
                self.quit_requested == old(self).quit_requested,
                kept@ == uneaten(m0, f0, fi as int),
                forall|k: int|
                    0 <= k < n ==> (#[trigger] self.snake_models()[k]) == m0[k].with_state(
                        m0[k].alive,
                        m0[k].pending_growth + eaten_by(m0, f0, k, fi as int),
                    ),
                forall|k: int|
                    0 <= k < n ==> (#[trigger] self.snakes@[k]).eliminated_at == old(self).snakes@[k].eliminated_at,
                forall|k: int|
                    0 <= k < n ==> #[trigger] old(self).snakes@[k].pending_growth + f0.len()
                        <= usize::MAX,
            decreases f0.len() - fi,
        {
            let fruit = self.fruits[fi];
            let eater = self.first_eater(fruit);
            proof {
                lemma_eater_same(m0, self.snake_models(), fruit, n as int);
            }
            if let Some(j) = eater {
                proof {
                    lemma_eaten_by_bound(m0, f0, j as int, fi as int);
                    assert(self.snake_models()[j as int] == self.snakes@[j as int]@);
                }
                let ghost before = self.snake_models();
                self.snakes[j].pending_growth += 1;
                proof {
                    assert(self.snake_models() =~= before.update(
                        j as int,
                        before[j as int].with_state(
                            before[j as int].alive,
                            before[j as int].pending_growth + 1,
                        ),
                    ));
                    assert forall|k: int| 0 <= k < n implies (#[trigger] self.snake_models()[k])
                        == m0[k].with_state(
                        m0[k].alive,
                        m0[k].pending_growth + eaten_by(m0, f0, k, fi + 1),
                    ) by {
                        assert(self.snake_models()[k] == self.snakes@[k]@);
                    }
                }
            } else {
                kept.push(fruit);
                proof {
                    assert forall|k: int| 0 <= k < n implies (#[trigger] self.snake_models()[k])
                        == m0[k].with_state(
                        m0[k].alive,
                        m0[k].pending_growth + eaten_by(m0, f0, k, fi + 1),
                    ) by {
                        assert(self.snake_models()[k] == self.snakes@[k]@);
                    }
                }
            }
            fi += 1;
        }
        assert forall|k: int| 0 <= k < n implies #[trigger] self.snake_models()[k] == after_fruit(
            m0,
            f0,
        )[k] by {
            assert(self.snake_models()[k] == m0[k].with_state(
                m0[k].alive,
                m0[k].pending_growth + eaten_by(m0, f0, k, fi as int),
            ));
        }
        assert(self.snake_models() =~= after_fruit(m0, f0));
        self.fruits = kept;
    }

    /// Index of the first living snake whose head is on cell `p`.
    fn first_eater(&self, p: Point) -> (r: Option<usize>)
        ensures
            r matches Some(j) ==> eater_of(self.snake_models(), p, self.snakes@.len() as int)
                == Some(j as int) && j < self.snakes@.len(),
            r is None ==> eater_of(self.snake_models(), p, self.snakes@.len() as int) is None,
    {
        let n = self.snakes.len();
        let mut j: usize = 0;
        while j < n
            invariant
                n == self.snakes@.len(),
                j <= n,
                eater_of(self.snake_models(), p, j as int) is None,
            decreases n - j,
        {
            let h = self.snakes[j].head();
            assert(self.snake_models()[j as int] == self.snakes@[j as int]@);
            if self.snakes[j].alive && h == Some(p) {
                assert(eater_of(self.snake_models(), p, j + 1) == Some(j as int));
                proof {
                    lemma_eater_stays(self.snake_models(), p, j + 1, n as int);
                }
                return Some(j);
            }
            j += 1;
        }
        None
    }

    /// Adds fruit on free cells until there are as many as the settings ask for,
    /// or until a search for a free cell gives up (see `random_empty_cell`). Whether a
    /// search gives up rests on the random draws; what is stated holds whatever they
    /// were: fruit stays short of the target only after a search gave up on the
    /// board as it ends.
    pub fn refill_fruits(&mut self)
        ensures
            final(self).fruits@.len() < old(self).settings.fruit_count ==> search_outcome(
                final(self).fruits@,
                final(self).snake_models(),
                None,
            ),
            final(self).snakes@ == old(self).snakes@,
            final(self).settings == old(self).settings,
            final(self).high_score == old(self).high_score,
            final(self).quit_requested == old(self).quit_requested,
            final(self).fruits@.len() >= old(self).fruits@.len(),
            final(self).fruits@.take(old(self).fruits@.len() as int) == old(self).fruits@,
            final(self).fruits@.len() > old(self).fruits@.len() ==> final(self).fruits@.len()
                <= old(self).settings.fruit_count,
            forall|k: int|
                old(self).fruits@.len() <= k < final(self).fruits@.len() ==> free_cell(
                    final(self).fruits@.take(k),
                    final(self).snake_models(),
                    #[trigger] final(self).fruits@[k],
                ),
    {
        let ghost f0 = self.fruits@;
        while self.fruits.len() < self.settings.fruit_count
            invariant
                self.snakes@ == old(self).snakes@,
                self.settings == old(self).settings,
                self.high_score == old(self).high_score,
                self.quit_requested == old(self).quit_requested,
                f0 == old(self).fruits@,
                self.fruits@.len() >= f0.len(),
                self.fruits@.take(f0.len() as int) == f0,
                self.fruits@.len() > f0.len() ==> self.fruits@.len() <= self.settings.fruit_count,
                forall|k: int|
                    f0.len() <= k < self.fruits@.len() ==> free_cell(
                        self.fruits@.take(k),
                        self.snake_models(),
                        #[trigger] self.fruits@[k],
                    ),
            ensures
                self.fruits@.len() < self.settings.fruit_count ==> search_outcome(
                    self.fruits@,
                    self.snake_models(),
                    None,
                ),
            decreases self.settings.fruit_count - self.fruits@.len(),
        {
            match self.random_empty_cell() {
                Some(p) => {
                    let ghost before = self.fruits@;
                    self.fruits.push(p);
                    proof {
                        assert(self.fruits@.take(before.len() as int) =~= before);
                        assert(self.fruits@.take(f0.len() as int) =~= f0) by {
                            assert(before.take(f0.len() as int) == f0);
                        }
                        assert forall|k: int|
                            f0.len() <= k < self.fruits@.len() implies free_cell(
                            self.fruits@.take(k),
                            self.snake_models(),
                            #[trigger] self.fruits@[k],
                        ) by {
                            if k < before.len() {
                                assert(self.fruits@.take(k) =~= before.take(k));
                                assert(self.fruits@[k] == before[k]);
                            }
                        }
                    }
                },
                None => {
                    break ;
                },
            }
        }
    }

    /// Records the length of the player's snake, if it beats the high score: the high
    /// score is the player's best length of the round.
    pub fn update_high_score(&mut self)
        ensures
            final(self).high_score as int == best_after(
                old(self).high_score as int,
                old(self).snake_models(),
            ),
            final(self).snakes@ == old(self).snakes@,
            final(self).settings == old(self).settings,
            final(self).fruits@ == old(self).fruits@,
            final(self).quit_requested == old(self).quit_requested,
    {
        let player_len: Option<usize> = match self.player() {
            Some(p) => Some(p.len()),
            None => None,
        };
        match player_len {
            Some(l) => {
                if l > self.high_score {
                    self.high_score = l;
                }
            },
            None => {},
        }
    }

    /// Whether a new fruit may go on cell `p`: on the board, free of fruit and of
    /// the bodies of living snakes.
    pub fn is_free_cell(&self, p: Point) -> (r: bool)
        ensures
            r == free_cell(self.fruits@, self.snake_models(), p),
    {
        if !in_bounds(p) {
            return false;
        }
        let mut f: usize = 0;
        while f < self.fruits.len()
            invariant
                f <= self.fruits@.len(),
                forall|q: int| 0 <= q < f ==> self.fruits@[q] != p,
            decreases self.fruits@.len() - f,
        {
            if self.fruits[f] == p {
                assert(self.fruits@.contains(p));
                return false;
            }
            f += 1;
        }
        let mut k: usize = 0;
        while k < self.snakes.len()
            invariant
                k <= self.snakes@.len(),
                !self.fruits@.contains(p),
                on_board(p),
                forall|a: int, j: int|
                    0 <= a < k && self.snake_models()[a].alive && 0 <= j
                        < self.snake_models()[a].body.len() ==> #[trigger] self.snake_models()[a].body[j]
                        != p,
            decreases self.snakes@.len() - k,
        {
            if self.snakes[k].alive {
                let len = self.snakes[k].body.len();
                let mut j: usize = 0;
                while j < len
                    invariant
                        k < self.snakes@.len(),
                        self.snakes@[k as int].alive,
                        len == self.snakes@[k as int].body@.len(),
                        j <= len,
                        forall|q: int| 0 <= q < j ==> self.snakes@[k as int].body@[q] != p,
                    decreases len - j,
                {
                    if self.snakes[k].body[j] == p {
                        assert(self.snake_models()[k as int] == self.snakes@[k as int]@);
                        assert(self.snake_models()[k as int].body[j as int] == p);
                        assert(occupied(self.snake_models(), p));
                        return false;
                    }
                    j += 1;
                }
            }
            assert(self.snake_models()[k as int] == self.snakes@[k as int]@);
            k += 1;
        }
        true
    }

    /// A random cell of the board.
    pub fn draw_cell(&mut self) -> (p: Point)
        ensures
            on_board(p),
            final(self).snakes@ == old(self).snakes@,
            final(self).fruits@ == old(self).fruits@,
            final(self).settings == old(self).settings,
            final(self).high_score == old(self).high_score,
            final(self).quit_requested == old(self).quit_requested,
    {
        let x = random_in_range(&mut self.rng, 0, WIDTH);
        let y = random_in_range(&mut self.rng, 0, HEIGHT);
        Point { x, y }
    }

    /// Draws up to five hundred random cells and returns the first free one, if any
    /// (see `search_outcome`). Which cells are drawn rests on the generator, so
    /// `None` may come back while free cells remain, but only after five hundred
    /// draws of cells that were not free.
    pub fn random_empty_cell(&mut self) -> (r: Option<Point>)
        ensures
            search_outcome(old(self).fruits@, old(self).snake_models(), r),
            r matches Some(p) ==> free_cell(old(self).fruits@, old(self).snake_models(), p),
            final(self).snakes@ == old(self).snakes@,
            final(self).fruits@ == old(self).fruits@,
            final(self).settings == old(self).settings,
            final(self).high_score == old(self).high_score,
            final(self).quit_requested == old(self).quit_requested,
    {
        let ghost fruits = self.fruits@;
        let ghost m = self.snake_models();
        let ghost mut draws: Seq<Point> = Seq::empty();
        let mut tries: u32 = 0;
        while tries < 500
            invariant
                self.snakes@ == old(self).snakes@,
                self.fruits@ == old(self).fruits@,
                self.settings == old(self).settings,
                self.high_score == old(self).high_score,
                self.quit_requested == old(self).quit_requested,
                fruits == old(self).fruits@,
                m == old(self).snake_models(),
                tries <= 500,
                draws.len() == tries,
                forall|i: int| 0 <= i < draws.len() ==> on_board(#[trigger] draws[i]),
                first_free(fruits, m, draws) is None,
            decreases 500 - tries,
        {
            let p = self.draw_cell();
            let ghost prev = draws;
            proof {
                draws = prev.push(p);
                assert(draws.drop_last() =~= prev);
                assert(draws.last() == p);
                assert(self.snake_models() == m);
            }
            if self.is_free_cell(p) {
                assert(first_free(fruits, m, draws) == Some(p));
                return Some(p);
            }
            tries += 1;
        }
        None
    }
}

} // verus!
