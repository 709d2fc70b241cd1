use crate::game::{models, Game};
use crate::overlaps::{occupancy, occupancy_upto, seg_entries};
use crate::types::{
    in_bounds, manhattan, on_board, reverse_of, taxicab, with_turn, Direction, Point, SnakeModel,
};
use vstd::prelude::*;

verus! {

/// What one covering entry (snake, segment, cell) says about bot `me` stepping onto
/// cell `c`: `None` if it does not bear on it (another cell, or `me`'s own tail that
/// moves away this tick), otherwise whether the step is allowed: never into `me`'s own
/// body, into another head only when `me` is longer, into another body always.
pub open spec fn entry_verdict(m: Seq<SnakeModel>, me: int, c: Point, e: (int, int, Point)) -> Option<
    bool,
> {
    let (si, seg, cell) = e;
    if cell != c {
        None
    } else if si == me {
        let last = if m[si].body.len() > 0 {
            m[si].body.len() - 1
        } else {
            0
        };
        if seg == last && m[si].pending_growth == 0 {
            None
        } else {
            Some(false)
        }
    } else if seg == 0 {
        Some(m[me].body.len() > m[si].body.len())
    } else {
        Some(true)
    }
}

/// The verdict of the first entry of `es` that bears on the step.
pub open spec fn first_verdict(m: Seq<SnakeModel>, me: int, c: Point, es: Seq<(int, int, Point)>) -> Option<
    bool,
>
    decreases es.len(),
{
    if es.len() == 0 {
        None
    } else {
        match first_verdict(m, me, c, es.drop_last()) {
            Some(b) => Some(b),
            None => entry_verdict(m, me, c, es.last()),
        }
    }
}

/// Bot `me` may step onto cell `c`: the cell is on the board and the first living
/// snake part there (snake by snake, head to tail) allows it.
pub open spec fn may_step(m: Seq<SnakeModel>, me: int, c: Point) -> bool {
    on_board(c) && match first_verdict(m, me, c, occupancy(m)) {
        Some(b) => b,
        None => true,
    }
}

/// Index of the first fruit among the first `n` that is nearest to `from`.
pub open spec fn nearest_fruit(fruits: Seq<Point>, from: Point, n: int) -> Option<int>
    decreases n,
{
    if n <= 0 {
        None
    } else {
        match nearest_fruit(fruits, from, n - 1) {
            None => Some(n - 1),
            Some(b) => if taxicab(from, fruits[n - 1]) < taxicab(from, fruits[b]) {
                Some(n - 1)
            } else {
                Some(b)
            },
        }
    }
}

/// Among the other living snakes with a head, the number of those whose head is one
/// step from `c` and at least as long as snake `me`, of those one step away and
/// shorter, and of those two steps away and at least as long; counted among the first `n`.
pub open spec fn threats(m: Seq<SnakeModel>, me: int, c: Point, n: int) -> (nat, nat, nat)
    decreases n,
{
    if n <= 0 {
        (0, 0, 0)
    } else {
        let (a, b, d) = threats(m, me, c, n - 1);
        let k = n - 1;
        match m[k].live_head() {
            Some(h) => if k == me {
                (a, b, d)
            } else if taxicab(h, c) == 1 {
                if m[k].body.len() >= m[me].body.len() {
                    (a + 1, b, d)
                } else {
                    (a, b + 1, d)
                }
            } else if taxicab(h, c) == 2 && m[k].body.len() >= m[me].body.len() {
                (a, b, d + 1)
            } else {
                (a, b, d)
            },
            None => (a, b, d),
        }
    }
}

/// The four neighbours, in the order the bots look at them.
pub open spec fn neighbour_dir(i: int) -> Direction {
    if i == 0 {
        Direction::Up
    } else if i == 1 {
        Direction::Right
    } else if i == 2 {
        Direction::Down
    } else {
        Direction::Left
    }
}

/// Number of the first `n` neighbours of `origin` that bot `me` may step onto.
pub open spec fn open_count(m: Seq<SnakeModel>, me: int, origin: Point, n: int) -> nat
    decreases n,
{
    if n <= 0 {
        0
    } else {
        open_count(m, me, origin, n - 1) + if may_step(
            m,
            me,
            origin.stepped(neighbour_dir(n - 1)),
        ) {
            1nat
        } else {
            0nat
        }
    }
}

/// The first of the first `n` ranked directions that bot `me`, heading `dir` from
/// `head`, may take: not a reversal, and onto a cell it may step onto.
pub open spec fn first_move(
    m: Seq<SnakeModel>,
    me: int,
    head: Point,
    ranked: Seq<Direction>,
    n: int,
) -> Option<Direction>
    decreases n,
{
    if n <= 0 {
        None
    } else {
        match first_move(m, me, head, ranked, n - 1) {
            Some(d) => Some(d),
            None => {
                let d = ranked[n - 1];
                if d != reverse_of(m[me].dir) && may_step(m, me, head.stepped(d)) {
                    Some(d)
                } else {
                    None
                }
            },
        }
    }
}

/// A living bot with a head, which the bots' steering moves.
pub open spec fn steerable(s: SnakeModel) -> bool {
    s.alive && s.body.len() > 0 && !s.is_player
}

/// The direction bot `i` turns to, given its ranked choices: none for the player's
/// snake, a dead snake or one without a head.
pub open spec fn steer_choice(m: Seq<SnakeModel>, i: int, ranked: Seq<Direction>) -> Option<Direction> {
    if steerable(m[i]) {
        first_move(m, i, m[i].body[0], ranked, 5)
    } else {
        None
    }
}

/// Every neighbour of `p` stays in the range of `i32`.
pub open spec fn steps_fit(p: Point) -> bool {
    p.can_step(Direction::Up) && p.can_step(Direction::Down) && p.can_step(Direction::Left)
        && p.can_step(Direction::Right)
}

proof fn lemma_verdict_push(
    m: Seq<SnakeModel>,
    me: int,
    c: Point,
    es: Seq<(int, int, Point)>,
    x: (int, int, Point),
)
    ensures
        first_verdict(m, me, c, es.push(x)) == match first_verdict(m, me, c, es) {
            Some(b) => Some(b),
            None => entry_verdict(m, me, c, x),
        },
{
    assert(es.push(x).drop_last() =~= es);
}

proof fn lemma_verdict_append_none(
    m: Seq<SnakeModel>,
    me: int,
    c: Point,
    a: Seq<(int, int, Point)>,
    b: Seq<(int, int, Point)>,
)
    requires
        first_verdict(m, me, c, a) is Some,
    ensures
        first_verdict(m, me, c, a + b) == first_verdict(m, me, c, a),
    decreases b.len(),
{
    if b.len() == 0 {
        assert(a + b =~= a);
    } else {
        lemma_verdict_append_none(m, me, c, a, b.drop_last());
        assert((a + b).drop_last() =~= a + b.drop_last());
    }
}

/// The cells covered by the living snakes `si .. t`.
pub open spec fn occupancy_between(m: Seq<SnakeModel>, si: int, t: int) -> Seq<(int, int, Point)>
    decreases t - si,
{
    if t <= si {
        Seq::empty()
    } else {
        occupancy_between(m, si, t - 1) + if m[t - 1].alive {
            seg_entries(m, t - 1, m[t - 1].body.len() as int)
        } else {
            Seq::empty()
        }
    }
}

proof fn lemma_occupancy_prefix(m: Seq<SnakeModel>, si: int, t: int)
    requires
        0 <= si <= t <= m.len(),
    ensures
        occupancy_upto(m, t) =~= occupancy_upto(m, si) + occupancy_between(m, si, t),
    decreases t - si,
{
    if t > si {
        lemma_occupancy_prefix(m, si, t - 1);
    }
}

proof fn lemma_verdict_none_elsewhere(m: Seq<SnakeModel>, me: int, c: Point, es: Seq<(int, int, Point)>)
    requires
        forall|q: int| 0 <= q < es.len() ==> (#[trigger] es[q]).2 != c,
    ensures
        first_verdict(m, me, c, es) is None,
    decreases es.len(),
{
    if es.len() > 0 {
        lemma_verdict_none_elsewhere(m, me, c, es.drop_last());
    }
}

/// A bot may step onto a cell where another living snake's head lies, with no living
/// snake before that one covering the cell, exactly when the cell is on the board and
/// the bot is strictly longer: with equal lengths the step is refused.
pub proof fn law_step_onto_head(m: Seq<SnakeModel>, me: int, k: int, c: Point)
    requires
        0 <= me < m.len(),
        0 <= k < m.len(),
        k != me,
        m[k].alive,
        m[k].body.len() > 0,
        m[k].body[0] == c,
        forall|a: int, i: int|
            0 <= a < k && m[a].alive && 0 <= i < m[a].body.len() ==> #[trigger] m[a].body[i] != c,
    ensures
        may_step(m, me, c) == (on_board(c) && m[me].body.len() > m[k].body.len()),
{
    let pre = occupancy_upto(m, k);
    crate::overlaps::lemma_occupancy_upto_valid(m, k);
    crate::overlaps::lemma_occupancy_upto_below(m, k);
    assert forall|q: int| 0 <= q < pre.len() implies (#[trigger] pre[q]).2 != c by {
        assert(crate::overlaps::covers(m, (pre[q].0, pre[q].1), pre[q].2));
    }
    lemma_verdict_none_elsewhere(m, me, c, pre);
    let len = m[k].body.len() as int;
    let head = (k, 0int, c);
    assert(seg_entries(m, k, 1) =~= seq![head]) by {
        assert(seg_entries(m, k, 0) =~= Seq::<(int, int, Point)>::empty());
    }
    lemma_verdict_push(m, me, c, pre, head);
    assert(pre + seg_entries(m, k, 1) =~= pre.push(head));
    let first = pre.push(head);
    assert(first_verdict(m, me, c, first) == Some(m[me].body.len() > m[k].body.len()));
    let rest_seg = Seq::new((len - 1) as nat, |q: int| (k, 1 + q, m[k].body[1 + q]));
    lemma_seg_entries_split(m, k, 1, len);
    assert(occupancy_upto(m, k + 1) == pre + seg_entries(m, k, len));
    assert(occupancy_upto(m, k + 1) =~= first + rest_seg);
    lemma_occupancy_prefix(m, k + 1, m.len() as int);
    let rest = occupancy_between(m, k + 1, m.len() as int);
    assert(occupancy(m) =~= first + (rest_seg + rest));
    lemma_verdict_append_none(m, me, c, first, rest_seg + rest);
}

impl Game {
    /// Whether bot `snake_index` may step onto `cell` (see `may_step`).
    pub fn bot_can_step_into(&self, snake_index: usize, cell: Point) -> (r: bool)
        requires
            snake_index < self.snakes@.len(),
        ensures
            r == may_step(self.snake_models(), snake_index as int, cell),
    {
        let ghost m = self.snake_models();
        if !in_bounds(cell) {
            return false;
        }
        let my_len = self.snakes[snake_index].len();
        assert(m[snake_index as int] == self.snakes@[snake_index as int]@);
        let n = self.snakes.len();
        let mut idx: usize = 0;
        assert(occupancy_upto(m, 0) =~= Seq::<(int, int, Point)>::empty());
        while idx < n
            invariant
                n == self.snakes@.len() == m.len(),
                m == self.snake_models(),
                snake_index < n,
                my_len == m[snake_index as int].body.len(),
                on_board(cell),
                idx <= n,
                first_verdict(m, snake_index as int, cell, occupancy_upto(m, idx as int)) is None,
            decreases n - idx,
        {
            assert(m[idx as int] == self.snakes@[idx as int]@);
            if self.snakes[idx].alive {
                let len = self.snakes[idx].body.len();
                let mut seg: usize = 0;
                assert(occupancy_upto(m, idx as int) + seg_entries(m, idx as int, 0) =~= occupancy_upto(
                    m,
                    idx as int,
                ));
                while seg < len
                    invariant
                        n == self.snakes@.len() == m.len(),
                        m == self.snake_models(),
                        snake_index < n,
                        idx < n,
                        my_len == m[snake_index as int].body.len(),
                        m[idx as int].alive,
                        len == m[idx as int].body.len(),
                        on_board(cell),
                        seg <= len,
                        first_verdict(
                            m,
                            snake_index as int,
                            cell,
                            occupancy_upto(m, idx as int) + seg_entries(m, idx as int, seg as int),
                        ) is None,
                    decreases len - seg,
                {
                    let ghost cur = occupancy_upto(m, idx as int) + seg_entries(
                        m,
                        idx as int,
                        seg as int,
                    );
                    let ghost x = (idx as int, seg as int, m[idx as int].body[seg as int]);
                    proof {
                        lemma_verdict_push(m, snake_index as int, cell, cur, x);
                        assert(occupancy_upto(m, idx as int) + seg_entries(m, idx as int, seg + 1)
                            =~= cur.push(x));
                    }
                    if self.snakes[idx].body[seg] == cell {
                        let verdict: bool;
                        if idx == snake_index {
                            let last = if len > 0 {
                                len - 1
                            } else {
                                0
                            };
                            if seg == last && self.snakes[idx].pending_growth == 0 {
                                seg += 1;
                                continue ;
                            }
                            verdict = false;
                        } else if seg == 0 {
                            verdict = my_len > len;
                        } else {
                            verdict = true;
                        }
                        proof {
                            let pre = occupancy_upto(m, idx as int) + seg_entries(
                                m,
                                idx as int,
                                seg + 1,
                            );
                            assert(first_verdict(m, snake_index as int, cell, pre) == Some(
                                verdict,
                            ));
                            self.lemma_verdict_reaches_all(snake_index as int, cell, idx as int, seg + 1);
                        }
                        return verdict;
                    }
                    seg += 1;
                }
                assert(occupancy_upto(m, idx + 1) == occupancy_upto(m, idx as int) + seg_entries(
                    m,
                    idx as int,
                    len as int,
                ));
            } else {
                assert(occupancy_upto(m, idx + 1) =~= occupancy_upto(m, idx as int));
            }
            idx += 1;
        }
        true
    }

    proof fn lemma_verdict_reaches_all(&self, me: int, c: Point, idx: int, j: int)
        requires
            0 <= idx < self.snakes@.len(),
            self.snake_models()[idx].alive,
            0 <= j <= self.snake_models()[idx].body.len(),
            first_verdict(
                self.snake_models(),
                me,
                c,
                occupancy_upto(self.snake_models(), idx) + seg_entries(self.snake_models(), idx, j),
            ) is Some,
        ensures
            first_verdict(self.snake_models(), me, c, occupancy(self.snake_models()))
                == first_verdict(
                self.snake_models(),
                me,
                c,
                occupancy_upto(self.snake_models(), idx) + seg_entries(self.snake_models(), idx, j),
            ),
    {
        let m = self.snake_models();
        let len = m[idx].body.len() as int;
        let pre = occupancy_upto(m, idx) + seg_entries(m, idx, j);
        let rest_seg = Seq::new((len - j) as nat, |q: int| (idx, j + q, m[idx].body[j + q]));
        lemma_seg_entries_split(m, idx, j, len);
        assert(occupancy_upto(m, idx + 1) == occupancy_upto(m, idx) + seg_entries(m, idx, len));
        assert(occupancy_upto(m, idx + 1) =~= pre + rest_seg);
        lemma_occupancy_prefix(m, idx + 1, m.len() as int);
        let rest = occupancy_between(m, idx + 1, m.len() as int);
        assert(occupancy(m) =~= pre + (rest_seg + rest));
        lemma_verdict_append_none(m, me, c, pre, rest_seg + rest);
    }

    /// The first fruit nearest to `from`, if there is any fruit.
    pub fn closest_fruit(&self, from: Point) -> (r: Option<Point>)
        requires
            forall|k: int|
                0 <= k < self.fruits@.len() ==> taxicab(from, #[trigger] self.fruits@[k])
                    <= i32::MAX,
        ensures
            r matches Some(p) ==> exists|k: int|
                nearest_fruit(self.fruits@, from, self.fruits@.len() as int) == Some(k) && 0 <= k
                    < self.fruits@.len() && p == self.fruits@[k],
            r is None ==> self.fruits@.len() == 0,
    {
        let mut best: Option<usize> = None;
        let mut best_dist: i32 = 0;
        let mut k: usize = 0;
        while k < self.fruits.len()
            invariant
                k <= self.fruits@.len(),
                forall|q: int|
                    0 <= q < self.fruits@.len() ==> taxicab(from, #[trigger] self.fruits@[q])
                        <= i32::MAX,
                best matches Some(b) ==> nearest_fruit(self.fruits@, from, k as int) == Some(
                    b as int,
                ) && b < k && best_dist == taxicab(from, self.fruits@[b as int]),
                best is None ==> k == 0,
            decreases self.fruits@.len() - k,
        {
            let d = manhattan(from, self.fruits[k]);
            match best {
                None => {
                    best = Some(k);
                    best_dist = d;
                },
                Some(b) => {
                    if d < best_dist {
                        best = Some(k);
                        best_dist = d;
                    }
                },
            }
            k += 1;
        }
        match best {
            Some(b) => Some(self.fruits[b]),
            None => None,
        }
    }

    /// The other living snakes near cell `next`, counted by kind (see `threats`).
    pub fn head_threats(&self, snake_index: usize, next: Point) -> (r: (usize, usize, usize))
        requires
            snake_index < self.snakes@.len(),
            forall|k: int|
                0 <= k < self.snakes@.len() ==> ((#[trigger] self.snakes@[k])@.live_head() matches Some(
                    h,
                ) ==> taxicab(h, next) <= i32::MAX),
        ensures
            r.0 == threats(self.snake_models(), snake_index as int, next, self.snakes@.len() as int).0,
            r.1 == threats(self.snake_models(), snake_index as int, next, self.snakes@.len() as int).1,
            r.2 == threats(self.snake_models(), snake_index as int, next, self.snakes@.len() as int).2,
    {
        let ghost m = self.snake_models();
        let my_len = self.snakes[snake_index].len();
        assert(m[snake_index as int] == self.snakes@[snake_index as int]@);
        let n = self.snakes.len();
        let mut near_big: usize = 0;
        let mut near_small: usize = 0;
        let mut far_big: usize = 0;
        let mut idx: usize = 0;
        while idx < n
            invariant
                n == self.snakes@.len() == m.len(),
                m == self.snake_models(),
                snake_index < n,
                my_len == m[snake_index as int].body.len(),
                idx <= n,
                forall|k: int|
                    0 <= k < self.snakes@.len() ==> ((#[trigger] self.snakes@[k])@.live_head() matches Some(
                        h,
                    ) ==> taxicab(h, next) <= i32::MAX),
                near_big == threats(m, snake_index as int, next, idx as int).0,
                near_small == threats(m, snake_index as int, next, idx as int).1,
                far_big == threats(m, snake_index as int, next, idx as int).2,
                near_big + near_small + far_big <= idx,
            decreases n - idx,
        {
            assert(m[idx as int] == self.snakes@[idx as int]@);
            if idx != snake_index && self.snakes[idx].alive {
                if let Some(h) = self.snakes[idx].head() {
                    let d = manhattan(h, next);
                    let len = self.snakes[idx].len();
                    if d == 1 {
                        if len >= my_len {
                            near_big += 1;
                        } else {
                            near_small += 1;
                        }
                    } else if d == 2 && len >= my_len {
                        far_big += 1;
                    }
                }
            }
            idx += 1;
        }
        (near_big, near_small, far_big)
    }

    /// Number of the four neighbours of `origin` that bot `snake_index` may step onto.
    pub fn open_neighbour_count(&self, snake_index: usize, origin: Point) -> (r: u32)
        requires
            snake_index < self.snakes@.len(),
            steps_fit(origin),
        ensures
            r == open_count(self.snake_models(), snake_index as int, origin, 4),
    {
        let dirs = [Direction::Up, Direction::Right, Direction::Down, Direction::Left];
        let mut count: u32 = 0;
        let mut i: usize = 0;
        while i < 4
            invariant
                snake_index < self.snakes@.len(),
                steps_fit(origin),
                dirs@ == seq![Direction::Up, Direction::Right, Direction::Down, Direction::Left],
                i <= 4,
                count == open_count(self.snake_models(), snake_index as int, origin, i as int),
                count <= i,
            decreases 4 - i,
        {
            let d = dirs[i];
            assert(d == neighbour_dir(i as int));
            let p = origin.add(d);
            if self.bot_can_step_into(snake_index, p) {
                count += 1;
            }
            i += 1;
        }
        count
    }

    /// Steers bot `i` into the first of the `ranked` directions that is not a reversal
    /// and leads onto a cell it may step onto; the player's snake, dead snakes and
    /// snakes without a head are left alone, as is a bot with no such direction.
    pub fn steer_bot(&mut self, i: usize, ranked: &[Direction; 5])
        requires
            i < old(self).snakes@.len(),
            old(self).snakes@[i as int]@.live_head() matches Some(h) ==> steps_fit(h),
        ensures
            steer_choice(old(self).snake_models(), i as int, ranked@) == None::<Direction> ==> *final(self) == *old(self),
            steer_choice(old(self).snake_models(), i as int, ranked@) != None::<Direction> ==> {
                &&& final(self).snakes@ == old(self).snakes@.update(
                    i as int,
                    final(self).snakes@[i as int],
                )
                &&& final(self).snakes@[i as int].eliminated_at == old(self).snakes@[i as int].eliminated_at
                &&& final(self).snake_models()[i as int] == with_turn(
                    old(self).snake_models()[i as int],
                    steer_choice(old(self).snake_models(), i as int, ranked@).unwrap(),
                )
                &&& final(self).same_but_snakes(&*old(self))
            },
    {
        let ghost m = self.snake_models();
        assert(m[i as int] == self.snakes@[i as int]@);
        if self.snakes[i].is_player || !self.snakes[i].alive {
            return ;
        }
        let head = match self.snakes[i].head() {
            Some(h) => h,
            None => {
                return ;
            },
        };
        let mut k: usize = 0;
        while k < 5
            invariant
                m == self.snake_models(),
                *self == *old(self),
                i < self.snakes@.len(),
                head == m[i as int].body[0],
                m[i as int].body.len() > 0,
                steerable(m[i as int]),
                steps_fit(head),
                k <= 5,
                first_move(m, i as int, head, ranked@, k as int) is None,
            decreases 5 - k,
        {
            let d = ranked[k];
            if d != self.snakes[i].dir.opposite() {
                let next = head.add(d);
                if self.bot_can_step_into(i, next) {
                    assert(first_move(m, i as int, head, ranked@, k + 1) == Some(d));
                    proof {
                        lemma_first_move_stays(m, i as int, head, ranked@, k + 1, 5);
                    }
                    self.snakes[i].set_direction(d);
                    proof {
                        lemma_models_index(self.snakes@, i as int);
                        assert(self.snakes@ == old(self).snakes@.update(i as int, self.snakes@[i as int]));
                        assert(steer_choice(m, i as int, ranked@) == Some(d));
                    }
                    return ;
                }
            }
            k += 1;
        }
    }
}

proof fn lemma_models_index(s: Seq<crate::types::Snake>, i: int)
    requires
        0 <= i < s.len(),
    ensures
        models(s)[i] == s[i]@,
{
}

proof fn lemma_first_move_stays(
    m: Seq<SnakeModel>,
    me: int,
    head: Point,
    ranked: Seq<Direction>,
    j: int,
    n: int,
)
    requires
        0 <= j <= n,
        first_move(m, me, head, ranked, j) is Some,
    ensures
        first_move(m, me, head, ranked, n) == first_move(m, me, head, ranked, j),
    decreases n - j,
{
    if n > j {
        lemma_first_move_stays(m, me, head, ranked, j, n - 1);
    }
}

proof fn lemma_seg_entries_split(m: Seq<SnakeModel>, idx: int, j: int, len: int)
    requires
        0 <= j <= len,
        len <= m[idx].body.len(),
    ensures
        seg_entries(m, idx, len) =~= seg_entries(m, idx, j) + Seq::new(
            (len - j) as nat,
            |q: int| (idx, j + q, m[idx].body[j + q]),
        ),
    decreases len - j,
{
    if len > j {
        lemma_seg_entries_split(m, idx, j, len - 1);
        assert(seg_entries(m, idx, len) =~= seg_entries(m, idx, j) + Seq::new(
            (len - j) as nat,
            |q: int| (idx, j + q, m[idx].body[j + q]),
        ));
    }
}

/// What the bot's head would run into on a cell that another snake covers.
#[derive(Clone, Copy, PartialEq, Eq, Structural, Debug)]
pub enum Contact {
    /// The head of a shorter snake: the bot would win the meeting.
    HeadWin,
    /// The head of a snake at least as long: the bot would lose it.
    HeadLoss,
    /// A body segment: the bite would take this many cells, from it to the tail.
    Bite(usize),
}

/// The contact that covering entry `e` (snake, segment, cell) means for bot `me`.
pub open spec fn contact_of(m: Seq<SnakeModel>, me: int, e: (int, int, Point)) -> Contact {
    let (si, seg, cell) = e;
    if seg == 0 {
        if m[me].body.len() > m[si].body.len() {
            Contact::HeadWin
        } else {
            Contact::HeadLoss
        }
    } else {
        Contact::Bite((m[si].body.len() - seg) as usize)
    }
}

/// What bot `me` runs into on cell `c`, entry by entry of `es`: one contact for every
/// part of another snake there.
pub open spec fn contacts(m: Seq<SnakeModel>, me: int, c: Point, es: Seq<(int, int, Point)>) -> Seq<
    Contact,
>
    decreases es.len(),
{
    if es.len() == 0 {
        Seq::empty()
    } else {
        let rest = contacts(m, me, c, es.drop_last());
        let e = es.last();
        if e.0 != me && e.2 == c {
            rest.push(contact_of(m, me, e))
        } else {
            rest
        }
    }
}

proof fn lemma_contacts_push(
    m: Seq<SnakeModel>,
    me: int,
    c: Point,
    es: Seq<(int, int, Point)>,
    x: (int, int, Point),
)
    ensures
        contacts(m, me, c, es.push(x)) == if x.0 != me && x.2 == c {
            contacts(m, me, c, es).push(contact_of(m, me, x))
        } else {
            contacts(m, me, c, es)
        },
{
    assert(es.push(x).drop_last() =~= es);
}

/// How another snake compares in length with the bot that hunts.
#[derive(Clone, Copy, PartialEq, Eq, Structural, Debug)]
pub enum Rivalry {
    /// Shorter by two cells or more.
    Prey,
    /// Longer.
    Predator,
    /// Neither.
    Peer,
}

/// How a snake of length `other` compares with a bot of length `mine`.
pub open spec fn rivalry_of(other: int, mine: int) -> Rivalry {
    if other + 1 < mine {
        Rivalry::Prey
    } else if other > mine {
        Rivalry::Predator
    } else {
        Rivalry::Peer
    }
}

/// Among the first `n` snakes, the other living ones with a head, in order, each with
/// how it compares with bot `me` and the taxicab distance from its head to `c`.
pub open spec fn rivals(m: Seq<SnakeModel>, me: int, c: Point, n: int) -> Seq<(Rivalry, int)>
    decreases n,
{
    if n <= 0 {
        Seq::empty()
    } else {
        let rest = rivals(m, me, c, n - 1);
        let k = n - 1;
        match m[k].live_head() {
            Some(h) => if k != me {
                rest.push(
                    (rivalry_of(m[k].body.len() as int, m[me].body.len() as int), taxicab(h, c)),
                )
            } else {
                rest
            },
            None => rest,
        }
    }
}

impl Game {
    /// Everything bot `snake_index` would run into on cell `next` (see `contacts`),
    /// snake by snake and head to tail.
    pub fn attack_contacts(&self, snake_index: usize, next: Point) -> (r: Vec<Contact>)
        requires
            snake_index < self.snakes@.len(),
        ensures
            r@ == contacts(self.snake_models(), snake_index as int, next, occupancy(self.snake_models())),
    {
        let ghost m = self.snake_models();
        let my_len = self.snakes[snake_index].len();
        assert(m[snake_index as int] == self.snakes@[snake_index as int]@);
        let n = self.snakes.len();
        let mut out: Vec<Contact> = Vec::new();
        let mut idx: usize = 0;
        assert(occupancy_upto(m, 0) =~= Seq::<(int, int, Point)>::empty());
        while idx < n
            invariant
                n == self.snakes@.len() == m.len(),
                m == self.snake_models(),
                snake_index < n,
                my_len == m[snake_index as int].body.len(),
                idx <= n,
                out@ == contacts(m, snake_index as int, next, occupancy_upto(m, idx as int)),
            decreases n - idx,
        {
            assert(m[idx as int] == self.snakes@[idx as int]@);
            if self.snakes[idx].alive {
                let len = self.snakes[idx].body.len();
                let mut seg: usize = 0;
                assert(occupancy_upto(m, idx as int) + seg_entries(m, idx as int, 0) =~= occupancy_upto(
                    m,
                    idx as int,
                ));
                while seg < len
                    invariant
                        n == self.snakes@.len() == m.len(),
                        m == self.snake_models(),
                        snake_index < n,
                        idx < n,
                        my_len == m[snake_index as int].body.len(),
                        m[idx as int].alive,
                        len == m[idx as int].body.len(),
                        seg <= len,
                        out@ == contacts(
                            m,
                            snake_index as int,
                            next,
                            occupancy_upto(m, idx as int) + seg_entries(m, idx as int, seg as int),
                        ),
                    decreases len - seg,
                {
                    let ghost cur = occupancy_upto(m, idx as int) + seg_entries(
                        m,
                        idx as int,
                        seg as int,
                    );
                    let ghost x = (idx as int, seg as int, m[idx as int].body[seg as int]);
                    proof {
                        lemma_contacts_push(m, snake_index as int, next, cur, x);
                        assert(occupancy_upto(m, idx as int) + seg_entries(m, idx as int, seg + 1)
                            =~= cur.push(x));
                    }
                    if idx != snake_index && self.snakes[idx].body[seg] == next {
                        let contact = if seg == 0 {
                            if my_len > len {
                                Contact::HeadWin
                            } else {
                                Contact::HeadLoss
                            }
                        } else {
                            Contact::Bite(len - seg)
                        };
                        out.push(contact);
                    }
                    seg += 1;
                }
                assert(occupancy_upto(m, idx + 1) == occupancy_upto(m, idx as int) + seg_entries(
                    m,
                    idx as int,
                    len as int,
                ));
            } else {
                assert(occupancy_upto(m, idx + 1) =~= occupancy_upto(m, idx as int));
            }
            idx += 1;
        }
        out
    }

    /// The other living snakes with a head, each with how it compares with bot
    /// `snake_index` and its distance from cell `next` (see `rivals`).
    pub fn hunt_rivals(&self, snake_index: usize, next: Point) -> (r: Vec<(Rivalry, i32)>)
        requires
            snake_index < self.snakes@.len(),
            forall|k: int|
                0 <= k < self.snakes@.len() ==> ((#[trigger] self.snakes@[k])@.live_head() matches Some(
                    h,
                ) ==> taxicab(h, next) <= i32::MAX),
        ensures
            r@.len() == rivals(self.snake_models(), snake_index as int, next, self.snakes@.len() as int).len(),
            forall|q: int|
                0 <= q < r@.len() ==> (#[trigger] r@[q]).0 == rivals(
                    self.snake_models(),
                    snake_index as int,
                    next,
                    self.snakes@.len() as int,
                )[q].0 && r@[q].1 == rivals(
                    self.snake_models(),
                    snake_index as int,
                    next,
                    self.snakes@.len() as int,
                )[q].1,
    {
        let ghost m = self.snake_models();
        let my_len = self.snakes[snake_index].len();
        assert(m[snake_index as int] == self.snakes@[snake_index as int]@);
        let n = self.snakes.len();
        let mut out: Vec<(Rivalry, i32)> = Vec::new();
        let mut idx: usize = 0;
        while idx < n
            invariant
                n == self.snakes@.len() == m.len(),
                m == self.snake_models(),
                snake_index < n,
                my_len == m[snake_index as int].body.len(),
                idx <= n,
                forall|k: int|
                    0 <= k < self.snakes@.len() ==> ((#[trigger] self.snakes@[k])@.live_head() matches Some(
                        h,
                    ) ==> taxicab(h, next) <= i32::MAX),
                out@.len() == rivals(m, snake_index as int, next, idx as int).len(),
                forall|q: int|
                    0 <= q < out@.len() ==> (#[trigger] out@[q]).0 == rivals(
                        m,
                        snake_index as int,
                        next,
                        idx as int,
                    )[q].0 && out@[q].1 == rivals(m, snake_index as int, next, idx as int)[q].1,
            decreases n - idx,
        {
            assert(m[idx as int] == self.snakes@[idx as int]@);
            if idx != snake_index && self.snakes[idx].alive {
                if let Some(h) = self.snakes[idx].head() {
                    let d = manhattan(h, next);
                    let len = self.snakes[idx].len();
                    let rivalry = if my_len > 0 && len < my_len - 1 {
                        Rivalry::Prey
                    } else if len > my_len {
                        Rivalry::Predator
                    } else {
                        Rivalry::Peer
                    };
                    out.push((rivalry, d));
                }
            }
            idx += 1;
        }
        out
    }
}

} // verus!
