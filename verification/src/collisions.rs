use crate::game::{lemma_models_update, lemma_stamps_refl, lemma_stamps_trans, models, stamps_follow, Game};
use crate::types::{on_board, in_bounds, Point, Snake, SnakeModel};
use vstd::prelude::*;

verus! {

// ---------------------------------------------------------------------------
// Quantities over all snakes
// ---------------------------------------------------------------------------

/// Cells of a snake that still count: those of a living snake.
pub open spec fn live_len(s: SnakeModel) -> nat {
    if s.alive {
        s.body.len()
    } else {
        0
    }
}

/// Pending growth of the first `n` snakes plus the cells of the living ones among them.
pub open spec fn mass(m: Seq<SnakeModel>, n: int) -> nat
    decreases n,
{
    if n <= 0 {
        0
    } else {
        mass(m, n - 1) + m[n - 1].pending_growth + live_len(m[n - 1])
    }
}

/// The growth that collisions can hand out fits in a `usize`.
pub open spec fn mass_fits(m: Seq<SnakeModel>) -> bool {
    mass(m, m.len() as int) <= usize::MAX
}

// ---------------------------------------------------------------------------
// Walls and own bodies
// ---------------------------------------------------------------------------

/// A living snake whose head left the board or lies on another cell of its own body.
pub open spec fn crashes(s: SnakeModel) -> bool {
    &&& s.alive
    &&& s.body.len() > 0
    &&& (!on_board(s.body[0]) || exists|j: int| 1 <= j < s.body.len() && #[trigger] s.body[j] == s.body[0])
}

/// The snakes after wall and self collisions: each crashed snake dies.
pub open spec fn after_crashes(m: Seq<SnakeModel>) -> Seq<SnakeModel> {
    Seq::new(
        m.len(),
        |k: int|
            if crashes(m[k]) {
                m[k].with_state(false, m[k].pending_growth)
            } else {
                m[k]
            },
    )
}

/// After wall and self collisions, a snake is alive exactly when it was alive and its
/// head (if it has one) lies on the board, columns 0 to 47 and rows 0 to 19, and on no
/// other cell of its own body; nothing else about any snake changes.
pub proof fn law_crash_survivors(m: Seq<SnakeModel>, k: int)
    requires
        0 <= k < m.len(),
    ensures
        after_crashes(m).len() == m.len(),
        after_crashes(m)[k].alive <==> m[k].alive && (m[k].body.len() == 0 || (0 <= m[k].body[0].x
            < 48 && 0 <= m[k].body[0].y < 20 && forall|j: int|
            1 <= j < m[k].body.len() ==> #[trigger] m[k].body[j] != m[k].body[0])),
        after_crashes(m)[k].body == m[k].body,
        after_crashes(m)[k].pending_growth == m[k].pending_growth,
        after_crashes(m)[k].next_dir == m[k].next_dir,
        after_crashes(m)[k].id == m[k].id,
{
}

// ---------------------------------------------------------------------------
// Heads meeting on one cell
// ---------------------------------------------------------------------------

/// A living snake with its head on cell `h`.
pub open spec fn contends(s: SnakeModel, h: Point) -> bool {
    s.live_head() == Some(h)
}

/// Number of snakes among the first `n` with a living head on `h`.
pub open spec fn group_size(m: Seq<SnakeModel>, h: Point, n: int) -> nat
    decreases n,
{
    if n <= 0 {
        0
    } else {
        group_size(m, h, n - 1) + if contends(m[n - 1], h) {
            1nat
        } else {
            0nat
        }
    }
}

/// Length of the longest snake among the first `n` with a living head on `h`.
pub open spec fn group_max(m: Seq<SnakeModel>, h: Point, n: int) -> nat
    decreases n,
{
    if n <= 0 {
        0
    } else {
        let rest = group_max(m, h, n - 1);
        if contends(m[n - 1], h) && m[n - 1].body.len() > rest {
            m[n - 1].body.len()
        } else {
            rest
        }
    }
}

/// Snake `j` has its head on `h` and is as long as the longest such snake.
pub open spec fn strong(m: Seq<SnakeModel>, h: Point, j: int) -> bool {
    contends(m[j], h) && m[j].body.len() == group_max(m, h, m.len() as int)
}

/// Number of the longest snakes on `h` among the first `n`; with `players_only`,
/// only those the player steers.
pub open spec fn strong_count(m: Seq<SnakeModel>, h: Point, players_only: bool, n: int) -> nat
    decreases n,
{
    if n <= 0 {
        0
    } else {
        strong_count(m, h, players_only, n - 1) + if strong(m, h, n - 1) && (!players_only
            || m[n - 1].is_player) {
            1nat
        } else {
            0nat
        }
    }
}

/// The first of the longest snakes on `h` among the first `n` (with `players_only`,
/// the first such player snake).
pub open spec fn first_strong(m: Seq<SnakeModel>, h: Point, players_only: bool, n: int) -> Option<
    int,
>
    decreases n,
{
    if n <= 0 {
        None
    } else {
        match first_strong(m, h, players_only, n - 1) {
            Some(j) => Some(j),
            None => if strong(m, h, n - 1) && (!players_only || m[n - 1].is_player) {
                Some(n - 1)
            } else {
                None
            },
        }
    }
}

/// The snake that wins the cell `h`: the first player among the longest snakes there,
/// or else the first of the longest.
pub open spec fn head_winner(m: Seq<SnakeModel>, h: Point) -> Option<int> {
    let n = m.len() as int;
    if strong_count(m, h, true, n) > 0 {
        first_strong(m, h, true, n)
    } else {
        first_strong(m, h, false, n)
    }
}

/// Total length of the snakes among the first `n` with a living head on `h`,
/// apart from snake `w`.
pub open spec fn spoils(m: Seq<SnakeModel>, h: Point, w: int, n: int) -> nat
    decreases n,
{
    if n <= 0 {
        0
    } else {
        spoils(m, h, w, n - 1) + if contends(m[n - 1], h) && n - 1 != w {
            m[n - 1].body.len()
        } else {
            0
        }
    }
}

/// Snake `k` loses a meeting of heads: its cell holds more than one head, and either
/// several longest snakes meet there with no player among them, or `k` is not the winner.
pub open spec fn loses_meeting(m: Seq<SnakeModel>, k: int) -> bool {
    match m[k].live_head() {
        None => false,
        Some(h) => {
            let n = m.len() as int;
            &&& group_size(m, h, n) > 1
            &&& ((strong_count(m, h, false, n) > 1 && strong_count(m, h, true, n) == 0)
                || head_winner(m, h) != Some(k))
        },
    }
}

/// Snake `k` wins a meeting of heads and takes the length of all the others there.
pub open spec fn meeting_gain(m: Seq<SnakeModel>, k: int) -> nat {
    match m[k].live_head() {
        None => 0,
        Some(h) => if group_size(m, h, m.len() as int) > 1 && !loses_meeting(m, k) {
            spoils(m, h, k, m.len() as int)
        } else {
            0
        },
    }
}

/// The snakes after heads that meet on a cell are resolved.
pub open spec fn after_meetings(m: Seq<SnakeModel>) -> Seq<SnakeModel> {
    Seq::new(
        m.len(),
        |k: int|
            m[k].with_state(
                m[k].alive && !loses_meeting(m, k),
                m[k].pending_growth + meeting_gain(m, k),
            ),
    )
}

/// A record of the snakes before a resolution: living head, length, player flag.
pub open spec fn snapshot_of(snap: Seq<(Option<Point>, usize, bool)>, m: Seq<SnakeModel>) -> bool {
    &&& snap.len() == m.len()
    &&& forall|k: int|
        0 <= k < m.len() ==> {
            &&& (#[trigger] snap[k]).0 == m[k].live_head()
            &&& snap[k].1 == m[k].body.len()
            &&& snap[k].2 == m[k].is_player
        }
}

pub proof fn lemma_spoils_prefix(m: Seq<SnakeModel>, h: Point, w: int, j: int, n: int)
    requires
        0 <= j <= n,
    ensures
        spoils(m, h, w, j) <= spoils(m, h, w, n),
    decreases n - j,
{
    if n > j {
        lemma_spoils_prefix(m, h, w, j, n - 1);
    }
}

pub proof fn lemma_spoils_within_mass(m: Seq<SnakeModel>, h: Point, w: int, n: int)
    requires
        0 <= w < n <= m.len(),
    ensures
        m[w].pending_growth + spoils(m, h, w, n) <= mass(m, n),
    decreases n,
{
    if n - 1 > w {
        lemma_spoils_within_mass(m, h, w, n - 1);
    } else {
        lemma_spoils_below_mass(m, h, w, n - 1);
    }
}

proof fn lemma_spoils_below_mass(m: Seq<SnakeModel>, h: Point, w: int, n: int)
    requires
        0 <= n <= m.len(),
    ensures
        spoils(m, h, w, n) <= mass(m, n),
    decreases n,
{
    if n > 0 {
        lemma_spoils_below_mass(m, h, w, n - 1);
    }
}

pub proof fn lemma_group_size_bound(m: Seq<SnakeModel>, h: Point, n: int)
    requires
        0 <= n,
    ensures
        group_size(m, h, n) <= n,
    decreases n,
{
    if n > 0 {
        lemma_group_size_bound(m, h, n - 1);
    }
}

pub proof fn lemma_strong_count_bound(m: Seq<SnakeModel>, h: Point, p: bool, n: int)
    requires
        0 <= n,
    ensures
        strong_count(m, h, p, n) <= n,
    decreases n,
{
    if n > 0 {
        lemma_strong_count_bound(m, h, p, n - 1);
    }
}

proof fn lemma_first_at_stays(body: Seq<Point>, p: Point, j: int, n: int)
    requires
        0 <= j <= n,
        first_at(body, p, j) is Some,
    ensures
        first_at(body, p, n) == first_at(body, p, j),
    decreases n - j,
{
    if n > j {
        lemma_first_at_stays(body, p, j, n - 1);
    }
}

proof fn lemma_first_strong_stays(m: Seq<SnakeModel>, h: Point, p: bool, j: int, n: int)
    requires
        0 <= j <= n,
        first_strong(m, h, p, j) is Some,
    ensures
        first_strong(m, h, p, n) == first_strong(m, h, p, j),
        first_strong(m, h, p, j).unwrap() < j,
    decreases n - j,
{
    if n > j {
        lemma_first_strong_stays(m, h, p, j, n - 1);
    } else {
        lemma_first_strong_below(m, h, p, j);
    }
}

proof fn lemma_first_strong_below(m: Seq<SnakeModel>, h: Point, p: bool, n: int)
    ensures
        first_strong(m, h, p, n) matches Some(j) ==> 0 <= j < n,
    decreases n,
{
    if n > 0 {
        lemma_first_strong_below(m, h, p, n - 1);
    }
}

/// Number of snakes with a living head on `h`, and the length of the longest of them.
fn meeting_size(snap: &Vec<(Option<Point>, usize, bool)>, h: Point, Ghost(m): Ghost<
    Seq<SnakeModel>,
>) -> (r: (usize, usize))
    requires
        snapshot_of(snap@, m),
    ensures
        r.0 == group_size(m, h, m.len() as int),
        r.1 == group_max(m, h, m.len() as int),
{
    let mut size: usize = 0;
    let mut longest: usize = 0;
    let mut j: usize = 0;
    while j < snap.len()
        invariant
            snapshot_of(snap@, m),
            j <= snap@.len(),
            size == group_size(m, h, j as int),
            size <= j,
            longest == group_max(m, h, j as int),
        decreases snap@.len() - j,
    {
        let entry = snap[j];
        assert(snap@[j as int] == entry);
        if entry.0 == Some(h) {
            size += 1;
            if entry.1 > longest {
                longest = entry.1;
            }
        }
        j += 1;
    }
    (size, longest)
}

/// Number of the longest snakes on `h` (of all, then of players only).
fn strong_counts(snap: &Vec<(Option<Point>, usize, bool)>, h: Point, longest: usize, Ghost(m): Ghost<
    Seq<SnakeModel>,
>) -> (r: (usize, usize))
    requires
        snapshot_of(snap@, m),
        longest == group_max(m, h, m.len() as int),
    ensures
        r.0 == strong_count(m, h, false, m.len() as int),
        r.1 == strong_count(m, h, true, m.len() as int),
{
    let mut all: usize = 0;
    let mut players: usize = 0;
    let mut j: usize = 0;
    while j < snap.len()
        invariant
            snapshot_of(snap@, m),
            longest == group_max(m, h, m.len() as int),
            j <= snap@.len(),
            all == strong_count(m, h, false, j as int),
            players == strong_count(m, h, true, j as int),
            all <= j,
            players <= j,
        decreases snap@.len() - j,
    {
        let entry = snap[j];
        assert(snap@[j as int] == entry);
        if entry.0 == Some(h) && entry.1 == longest {
            all += 1;
            if entry.2 {
                players += 1;
            }
        }
        j += 1;
    }
    (all, players)
}

/// Index of the first longest snake on `h` (a player one, with `players_only`).
fn find_strong(
    snap: &Vec<(Option<Point>, usize, bool)>,
    h: Point,
    longest: usize,
    players_only: bool,
    Ghost(m): Ghost<Seq<SnakeModel>>,
) -> (r: Option<usize>)
    requires
        snapshot_of(snap@, m),
        longest == group_max(m, h, m.len() as int),
    ensures
        r matches Some(w) ==> first_strong(m, h, players_only, m.len() as int) == Some(w as int),
        r is None ==> first_strong(m, h, players_only, m.len() as int) is None,
{
    let mut j: usize = 0;
    while j < snap.len()
        invariant
            snapshot_of(snap@, m),
            longest == group_max(m, h, m.len() as int),
            j <= snap@.len(),
            first_strong(m, h, players_only, j as int) is None,
        decreases snap@.len() - j,
    {
        let entry = snap[j];
        assert(snap@[j as int] == entry);
        if entry.0 == Some(h) && entry.1 == longest && (!players_only || entry.2) {
            assert(first_strong(m, h, players_only, j + 1) == Some(j as int));
            proof {
                lemma_first_strong_stays(m, h, players_only, j + 1, m.len() as int);
            }
            return Some(j);
        }
        j += 1;
    }
    None
}

/// Total length of the snakes with a living head on `h`, apart from snake `w`.
fn spoils_of(snap: &Vec<(Option<Point>, usize, bool)>, h: Point, w: usize, Ghost(m): Ghost<
    Seq<SnakeModel>,
>) -> (r: usize)
    requires
        snapshot_of(snap@, m),
        spoils(m, h, w as int, m.len() as int) <= usize::MAX,
    ensures
        r == spoils(m, h, w as int, m.len() as int),
{
    let mut total: usize = 0;
    let mut j: usize = 0;
    while j < snap.len()
        invariant
            snapshot_of(snap@, m),
            spoils(m, h, w as int, m.len() as int) <= usize::MAX,
            j <= snap@.len(),
            total == spoils(m, h, w as int, j as int),
        decreases snap@.len() - j,
    {
        let entry = snap[j];
        assert(snap@[j as int] == entry);
        proof {
            lemma_spoils_prefix(m, h, w as int, j + 1, m.len() as int);
        }
        if entry.0 == Some(h) && j != w {
            total += entry.1;
        }
        j += 1;
    }
    total
}


// ---------------------------------------------------------------------------
// Heads biting into other snakes
// ---------------------------------------------------------------------------

/// The first index among the first `n` cells of `body` that holds `p`.
pub open spec fn first_at(body: Seq<Point>, p: Point, n: int) -> Option<int>
    decreases n,
{
    if n <= 0 {
        None
    } else {
        match first_at(body, p, n - 1) {
            Some(j) => Some(j),
            None => if body[n - 1] == p {
                Some(n - 1)
            } else {
                None
            },
        }
    }
}

/// The bite of snake `e` into snake `v`: the first cell of the living victim's body
/// that holds the living eater's head.
pub open spec fn bite(m: Seq<SnakeModel>, e: int, v: int) -> Option<(int, int, int)> {
    if e != v && m[v].alive {
        match m[e].live_head() {
            Some(h) => match first_at(m[v].body, h, m[v].body.len() as int) {
                Some(k) => Some((e, v, k)),
                None => None,
            },
            None => None,
        }
    } else {
        None
    }
}

/// The bites of eater `e` into the first `v` snakes, in order.
pub open spec fn bites_row(m: Seq<SnakeModel>, e: int, v: int) -> Seq<(int, int, int)>
    decreases v,
{
    if v <= 0 {
        Seq::empty()
    } else {
        match bite(m, e, v - 1) {
            Some(t) => bites_row(m, e, v - 1).push(t),
            None => bites_row(m, e, v - 1),
        }
    }
}

/// The bites of the first `e` eaters, eater by eater.
pub open spec fn bites_upto(m: Seq<SnakeModel>, e: int) -> Seq<(int, int, int)>
    decreases e,
{
    if e <= 0 {
        Seq::empty()
    } else {
        bites_upto(m, e - 1) + bites_row(m, e - 1, m.len() as int)
    }
}

/// All bites of a tick, found before any of them is carried out.
pub open spec fn all_bites(m: Seq<SnakeModel>) -> Seq<(int, int, int)> {
    bites_upto(m, m.len() as int)
}

/// One bite carried out, if eater and victim still live: a bite into the head kills
/// the victim and gives the eater its whole length; a bite into cell `k` cuts the victim
/// back to its first `k - 1` cells (it dies if none are left) and gives the eater the
/// cells cut off; a bite past the victim's current end does nothing.
pub open spec fn apply_bite(m: Seq<SnakeModel>, t: (int, int, int)) -> Seq<SnakeModel> {
    let (e, v, k) = t;
    if !(m[e].alive && m[v].alive) {
        m
    } else if k == 0 {
        let vlen = m[v].body.len();
        let m1 = m.update(v, m[v].with_state(false, m[v].pending_growth));
        m1.update(e, m1[e].with_state(m1[e].alive, m1[e].pending_growth + vlen))
    } else if k >= m[v].body.len() {
        m
    } else {
        let kept = k - 1;
        let eaten = (m[v].body.len() - kept) as nat;
        let cut = m[v].with_body(m[v].body.take(kept));
        let m1 = m.update(v, cut.with_state(kept > 0, cut.pending_growth));
        m1.update(e, m1[e].with_state(m1[e].alive, m1[e].pending_growth + eaten))
    }
}

/// The first `t` bites carried out in order.
pub open spec fn apply_bites(m: Seq<SnakeModel>, bites: Seq<(int, int, int)>, t: int) -> Seq<
    SnakeModel,
>
    decreases t,
{
    if t <= 0 {
        m
    } else {
        apply_bite(apply_bites(m, bites, t - 1), bites[t - 1])
    }
}

/// The snakes after all bites of a tick.
pub open spec fn after_bites(m: Seq<SnakeModel>) -> Seq<SnakeModel> {
    apply_bites(m, all_bites(m), all_bites(m).len() as int)
}

/// Triples of indices, taken as integers.
pub open spec fn as_ints(v: Seq<(usize, usize, usize)>) -> Seq<(int, int, int)> {
    Seq::new(v.len(), |i: int| (v[i].0 as int, v[i].1 as int, v[i].2 as int))
}

/// A bite names two different snakes of the tick and a cell index.
pub open spec fn bite_ok(m: Seq<SnakeModel>, t: (int, int, int)) -> bool {
    0 <= t.0 < m.len() && 0 <= t.1 < m.len() && t.0 != t.1 && t.2 >= 0
}

pub proof fn lemma_first_at_below(body: Seq<Point>, p: Point, n: int)
    ensures
        first_at(body, p, n) matches Some(j) ==> 0 <= j < n,
    decreases n,
{
    if n > 0 {
        lemma_first_at_below(body, p, n - 1);
    }
}

proof fn lemma_row_valid(m: Seq<SnakeModel>, e: int, v: int)
    requires
        0 <= e < m.len(),
        v <= m.len(),
    ensures
        forall|q: int|
            0 <= q < bites_row(m, e, v).len() ==> bite_ok(m, #[trigger] bites_row(m, e, v)[q]),
    decreases v,
{
    if v > 0 {
        lemma_row_valid(m, e, v - 1);
        if let Some(t) = bite(m, e, v - 1) {
            let h = m[e].live_head().unwrap();
            lemma_first_at_below(m[v - 1].body, h, m[v - 1].body.len() as int);
            assert(bite_ok(m, t));
            let row = bites_row(m, e, v - 1).push(t);
            assert(bites_row(m, e, v) == row);
            assert forall|q: int| 0 <= q < row.len() implies bite_ok(m, #[trigger] row[q]) by {
                if q < row.len() - 1 {
                    assert(row[q] == bites_row(m, e, v - 1)[q]);
                }
            }
        } else {
            assert(bites_row(m, e, v) == bites_row(m, e, v - 1));
        }
    }
}

proof fn lemma_upto_valid(m: Seq<SnakeModel>, e: int)
    requires
        e <= m.len(),
    ensures
        forall|q: int|
            0 <= q < bites_upto(m, e).len() ==> bite_ok(m, #[trigger] bites_upto(m, e)[q]),
    decreases e,
{
    if e > 0 {
        lemma_upto_valid(m, e - 1);
        lemma_row_valid(m, e - 1, m.len() as int);
        let a = bites_upto(m, e - 1);
        let b = bites_row(m, e - 1, m.len() as int);
        assert forall|q: int| 0 <= q < (a + b).len() implies bite_ok(m, #[trigger] (a + b)[q]) by {
            if q < a.len() {
                assert((a + b)[q] == a[q]);
            } else {
                assert((a + b)[q] == b[q - a.len()]);
            }
        }
    }
}

/// Every bite of a tick names two different snakes and a cell index.
pub proof fn lemma_bites_valid(m: Seq<SnakeModel>)
    ensures
        forall|q: int| 0 <= q < all_bites(m).len() ==> bite_ok(m, #[trigger] all_bites(m)[q]),
{
    lemma_upto_valid(m, m.len() as int);
}

pub proof fn lemma_mass_update(m: Seq<SnakeModel>, i: int, s: SnakeModel, n: int)
    requires
        0 <= i < m.len(),
        0 <= n <= m.len(),
    ensures
        i < n ==> mass(m.update(i, s), n) + m[i].pending_growth + live_len(m[i]) == mass(m, n)
            + s.pending_growth + live_len(s),
        i >= n ==> mass(m.update(i, s), n) == mass(m, n),
    decreases n,
{
    if n > 0 {
        lemma_mass_update(m, i, s, n - 1);
    }
}

pub proof fn lemma_mass_pair(m: Seq<SnakeModel>, e: int, v: int, n: int)
    requires
        0 <= e < n <= m.len(),
        0 <= v < n,
        e != v,
    ensures
        m[e].pending_growth + live_len(m[v]) <= mass(m, n),
    decreases n,
{
    if n - 1 != e && n - 1 != v {
        lemma_mass_pair(m, e, v, n - 1);
    } else if n - 1 == e {
        lemma_mass_single(m, v, n - 1);
    } else {
        lemma_mass_single(m, e, n - 1);
    }
}

pub proof fn lemma_mass_single(m: Seq<SnakeModel>, i: int, n: int)
    requires
        0 <= i < n <= m.len(),
    ensures
        m[i].pending_growth + live_len(m[i]) <= mass(m, n),
    decreases n,
{
    if n - 1 != i {
        lemma_mass_single(m, i, n - 1);
    } else {
        lemma_mass_nonneg(m, n - 1);
    }
}

proof fn lemma_mass_nonneg(m: Seq<SnakeModel>, n: int)
    ensures
        mass(m, n) >= 0,
{
}

/// A bite moves cells from the victim into the eater's pending growth: the mass
/// of all snakes stays the same.
pub proof fn lemma_bite_keeps_mass(m: Seq<SnakeModel>, t: (int, int, int))
    requires
        0 <= t.0 < m.len(),
        0 <= t.1 < m.len(),
        t.0 != t.1,
        t.2 >= 0,
    ensures
        apply_bite(m, t).len() == m.len(),
        mass(apply_bite(m, t), m.len() as int) == mass(m, m.len() as int),
{
    let (e, v, k) = t;
    let n = m.len() as int;
    if !(m[e].alive && m[v].alive) {
    } else if k == 0 {
        let vlen = m[v].body.len();
        let m1 = m.update(v, m[v].with_state(false, m[v].pending_growth));
        lemma_mass_update(m, v, m[v].with_state(false, m[v].pending_growth), n);
        lemma_mass_update(m1, e, m1[e].with_state(m1[e].alive, m1[e].pending_growth + vlen), n);
    } else if k >= m[v].body.len() {
    } else {
        let kept = k - 1;
        let eaten = (m[v].body.len() - kept) as nat;
        let cut = m[v].with_body(m[v].body.take(kept));
        let m1 = m.update(v, cut.with_state(kept > 0, cut.pending_growth));
        lemma_mass_update(m, v, cut.with_state(kept > 0, cut.pending_growth), n);
        lemma_mass_update(m1, e, m1[e].with_state(m1[e].alive, m1[e].pending_growth + eaten), n);
    }
}

impl Game {
    /// The record of living heads, lengths and player flags of all snakes.
    fn snapshot(&self) -> (r: Vec<(Option<Point>, usize, bool)>)
        ensures
            snapshot_of(r@, self.snake_models()),
    {
        let mut snap: Vec<(Option<Point>, usize, bool)> = Vec::new();
        let mut k: usize = 0;
        while k < self.snakes.len()
            invariant
                k <= self.snakes@.len(),
                snap@.len() == k,
                forall|j: int|
                    0 <= j < k ==> {
                        &&& (#[trigger] snap@[j]).0 == self.snake_models()[j].live_head()
                        &&& snap@[j].1 == self.snake_models()[j].body.len()
                        &&& snap@[j].2 == self.snake_models()[j].is_player
                    },
            decreases self.snakes@.len() - k,
        {
            let head = if self.snakes[k].alive {
                self.snakes[k].head()
            } else {
                None
            };
            assert(self.snake_models()[k as int] == self.snakes@[k as int]@);
            snap.push((head, self.snakes[k].len(), self.snakes[k].is_player));
            k += 1;
        }
        snap
    }

    /// Snakes whose heads meet on one cell: if several of the longest meet there and
    /// none is the player's, all of them die; otherwise the winner (the player among
    /// the longest, or else the first of the longest) takes the length of all the
    /// others as pending growth, and the others die.
    pub fn resolve_head_to_head(&mut self)
        requires
            mass_fits(old(self).snake_models()),
        ensures
            final(self).snake_models() == after_meetings(old(self).snake_models()),
            stamps_follow(old(self).snakes@, final(self).snakes@),
            final(self).same_but_snakes(&*old(self)),
    {
        let ghost m0 = self.snake_models();
        let snap = self.snapshot();
        let n = self.snakes.len();
        let mut i: usize = 0;
        proof {
            lemma_stamps_refl(self.snakes@);
        }
        while i < n
            invariant
                n == self.snakes@.len() == m0.len(),
                m0 == old(self).snake_models(),
                mass_fits(m0),
                snapshot_of(snap@, m0),
                i <= n,
                self.same_but_snakes(&*old(self)),
                stamps_follow(old(self).snakes@, self.snakes@),
                forall|k: int| i <= k < n ==> self.snakes@[k] == old(self).snakes@[k],
                forall|k: int|
                    0 <= k < i ==> #[trigger] self.snake_models()[k] == after_meetings(m0)[k],
            decreases n - i,
        {
            let ghost before = self.snakes@;
            assert(self.snake_models()[i as int] == m0[i as int]);
            let entry = snap[i];
            assert(snap@[i as int] == entry);
            if let Some(h) = entry.0 {
                let (size, longest) = meeting_size(&snap, h, Ghost(m0));
                if size > 1 {
                    let (all, players) = strong_counts(&snap, h, longest, Ghost(m0));
                    if all > 1 && players == 0 {
                        self.eliminate_snake(i);
                    } else {
                        let winner = find_strong(&snap, h, longest, players > 0, Ghost(m0));
                        if winner == Some(i) {
                            proof {
                                lemma_spoils_within_mass(m0, h, i as int, n as int);
                            }
                            let gain = spoils_of(&snap, h, i, Ghost(m0));
                            self.snakes[i].pending_growth += gain;
                        } else {
                            self.eliminate_snake(i);
                        }
                    }
                }
            }
            proof {
                assert(self.snake_models()[i as int] == after_meetings(m0)[i as int]);
                assert forall|k: int| 0 <= k < i + 1 implies #[trigger] self.snake_models()[k]
                    == after_meetings(m0)[k] by {
                    if k < i {
                        assert(self.snakes@[k] == before[k]);
                        assert(self.snake_models()[k] == models(before)[k]);
                    }
                }
                assert(stamps_follow(before, self.snakes@));
                lemma_stamps_trans(old(self).snakes@, before, self.snakes@);
            }
            i += 1;
        }
        assert(self.snake_models() =~= after_meetings(m0));
    }

    /// A living snake dies when its head is off the board or on its own body.
    pub fn resolve_wall_and_self_collisions(&mut self)
        ensures
            final(self).snake_models() == after_crashes(old(self).snake_models()),
            stamps_follow(old(self).snakes@, final(self).snakes@),
            final(self).same_but_snakes(&*old(self)),
    {
        let ghost m0 = self.snake_models();
        let n = self.snakes.len();
        let mut i: usize = 0;
        proof {
            lemma_stamps_refl(self.snakes@);
        }
        while i < n
            invariant
                n == self.snakes@.len() == m0.len(),
                m0 == old(self).snake_models(),
                i <= n,
                self.same_but_snakes(&*old(self)),
                stamps_follow(old(self).snakes@, self.snakes@),
                forall|k: int| i <= k < n ==> self.snakes@[k] == old(self).snakes@[k],
                forall|k: int|
                    0 <= k < i ==> #[trigger] self.snake_models()[k] == after_crashes(m0)[k],
            decreases n - i,
        {
            let ghost before = self.snakes@;
            assert(self.snake_models()[i as int] == m0[i as int]);
            if self.snakes[i].alive {
                if let Some(head) = self.snakes[i].head() {
                    if !in_bounds(head) {
                        self.eliminate_snake(i);
                    } else {
                        let len = self.snakes[i].len();
                        let mut hit_self = false;
                        let mut j: usize = 1;
                        while j < len
                            invariant
                                i < n == self.snakes@.len(),
                                len == self.snakes@[i as int].body@.len(),
                                len > 0,
                                head == self.snakes@[i as int].body@[0],
                                1 <= j <= len,
                                hit_self == exists|q: int|
                                    1 <= q < j && #[trigger] self.snakes@[i as int].body@[q] == head,
                            decreases len - j,
                        {
                            if self.snakes[i].body[j] == head {
                                hit_self = true;
                            }
                            j += 1;
                        }
                        if hit_self {
                            self.eliminate_snake(i);
                        }
                    }
                }
            }
            proof {
                assert(self.snake_models()[i as int] == after_crashes(m0)[i as int]);
                assert forall|k: int| 0 <= k < i + 1 implies #[trigger] self.snake_models()[k]
                    == after_crashes(m0)[k] by {
                    if k < i {
                        assert(self.snakes@[k] == before[k]);
                        assert(self.snake_models()[k] == models(before)[k]);
                    }
                }
                if self.snakes@ == before {
                    lemma_stamps_refl(before);
                }
                lemma_stamps_trans(old(self).snakes@, before, self.snakes@);
            }
            i += 1;
        }
        assert(self.snake_models() =~= after_crashes(m0));
    }

    /// Index of the first cell of snake `v` that holds `p`.
    fn find_cell(&self, v: usize, p: Point) -> (r: Option<usize>)
        requires
            v < self.snakes@.len(),
        ensures
            r matches Some(k) ==> first_at(
                self.snakes@[v as int].body@,
                p,
                self.snakes@[v as int].body@.len() as int,
            ) == Some(k as int),
            r is None ==> first_at(
                self.snakes@[v as int].body@,
                p,
                self.snakes@[v as int].body@.len() as int,
            ) is None,
    {
        let ghost body = self.snakes@[v as int].body@;
        let len = self.snakes[v].body.len();
        let mut k: usize = 0;
        while k < len
            invariant
                v < self.snakes@.len(),
                body == self.snakes@[v as int].body@,
                len == body.len(),
                k <= len,
                first_at(body, p, k as int) is None,
            decreases len - k,
        {
            if self.snakes[v].body[k] == p {
                assert(first_at(body, p, k + 1) == Some(k as int));
                proof {
                    lemma_first_at_stays(body, p, k + 1, len as int);
                }
                return Some(k);
            }
            k += 1;
        }
        None
    }

    /// All bites of this tick, eater by eater, each victim in index order.
    fn collect_bites(&self) -> (r: Vec<(usize, usize, usize)>)
        ensures
            as_ints(r@) == all_bites(self.snake_models()),
    {
        let ghost m = self.snake_models();
        let n = self.snakes.len();
        let mut found: Vec<(usize, usize, usize)> = Vec::new();
        let mut e: usize = 0;
        assert(as_ints(found@) =~= bites_upto(m, 0));
        while e < n
            invariant
                n == self.snakes@.len() == m.len(),
                m == self.snake_models(),
                e <= n,
                as_ints(found@) == bites_upto(m, e as int),
            decreases n - e,
        {
            let ghost row_start = found@;
            assert(m[e as int] == self.snakes@[e as int]@);
            let head = if self.snakes[e].alive {
                self.snakes[e].head()
            } else {
                None
            };
            let mut v: usize = 0;
            assert(as_ints(found@) =~= bites_upto(m, e as int) + bites_row(m, e as int, 0));
            while v < n
                invariant
                    n == self.snakes@.len() == m.len(),
                    m == self.snake_models(),
                    e < n,
                    v <= n,
                    head == m[e as int].live_head(),
                    as_ints(found@) == bites_upto(m, e as int) + bites_row(m, e as int, v as int),
                decreases n - v,
            {
                assert(m[v as int] == self.snakes@[v as int]@);
                if e != v && self.snakes[v].alive {
                    if let Some(h) = head {
                        if let Some(k) = self.find_cell(v, h) {
                            let ghost prev = found@;
                            found.push((e, v, k));
                            assert(as_ints(found@) =~= as_ints(prev).push(
                                (e as int, v as int, k as int),
                            ));
                        }
                    }
                }
                assert(bites_upto(m, e as int) + bites_row(m, e as int, v + 1) =~= as_ints(
                    found@,
                ));
                v += 1;
            }
            assert(bites_upto(m, e + 1) =~= bites_upto(m, e as int) + bites_row(
                m,
                e as int,
                n as int,
            ));
            e += 1;
        }
        found
    }

    /// Each living head that lies on the body of another living snake bites into it:
    /// all bites are found first, then carried out in order (see `apply_bite`).
    pub fn resolve_snake_eating(&mut self)
        requires
            mass_fits(old(self).snake_models()),
        ensures
            final(self).snake_models() == after_bites(old(self).snake_models()),
            stamps_follow(old(self).snakes@, final(self).snakes@),
            final(self).same_but_snakes(&*old(self)),
    {
        let ghost m0 = self.snake_models();
        let bites = self.collect_bites();
        let ghost all = all_bites(m0);
        proof {
            lemma_stamps_refl(self.snakes@);
            lemma_bites_valid(m0);
        }
        let n = self.snakes.len();
        let mut t: usize = 0;
        while t < bites.len()
            invariant
                n == self.snakes@.len() == m0.len(),
                m0 == old(self).snake_models(),
                all == all_bites(m0),
                as_ints(bites@) == all,
                forall|q: int| 0 <= q < all.len() ==> bite_ok(m0, #[trigger] all[q]),
                t <= bites@.len(),
                self.snake_models() == apply_bites(m0, all, t as int),
                mass(self.snake_models(), n as int) == mass(m0, n as int),
                mass_fits(m0),
                self.same_but_snakes(&*old(self)),
                stamps_follow(old(self).snakes@, self.snakes@),
            decreases bites@.len() - t,
        {
            let ghost before = self.snakes@;
            let ghost mb = self.snake_models();
            let (e, v, k) = bites[t];
            assert(all[t as int] == (e as int, v as int, k as int));
            proof {
                assert(bite_ok(m0, all[t as int]));
                lemma_bite_keeps_mass(mb, all[t as int]);
                assert(mb[e as int] == self.snakes@[e as int]@);
                assert(mb[v as int] == self.snakes@[v as int]@);
                lemma_mass_pair(mb, e as int, v as int, n as int);
            }
            if self.snakes[e].alive && self.snakes[v].alive {
                let vlen = self.snakes[v].len();
                if k == 0 {
                    self.eliminate_snake(v);
                    let ghost mid = self.snakes@;
                    assert(models(mid)[e as int] == mb[e as int]);
                    self.snakes[e].pending_growth += vlen;
                    proof {
                        assert(self.snakes@ == mid.update(e as int, self.snakes@[e as int]));
                        lemma_models_update(mid, e as int, self.snakes@[e as int]);
                        lemma_stamps_refl(self.snakes@);
                        assert(stamps_follow(mid, self.snakes@));
                        lemma_stamps_trans(before, mid, self.snakes@);
                    }
                } else if k < vlen {
                    let kept = k - 1;
                    let eaten = vlen - kept;
                    let ghost b0 = self.snakes@;
                    self.snakes[v].body.truncate(kept);
                    let ghost b1 = self.snakes@;
                    proof {
                        assert(b1 == b0.update(v as int, b1[v as int]));
                        lemma_models_update(b0, v as int, b1[v as int]);
                        assert(b1[v as int]@ == mb[v as int].with_body(mb[v as int].body.take(
                            kept as int,
                        )));
                        assert(stamps_follow(b0, b1));
                    }
                    if self.snakes[v].body.len() == 0 {
                        self.eliminate_snake(v);
                    } else {
                        proof {
                            lemma_stamps_refl(b1);
                        }
                    }
                    let ghost mid = self.snakes@;
                    proof {
                        lemma_stamps_trans(b0, b1, mid);
                    }
                    assert(models(mid)[e as int] == mb[e as int]);
                    self.snakes[e].pending_growth += eaten;
                    proof {
                        assert(self.snakes@ == mid.update(e as int, self.snakes@[e as int]));
                        lemma_models_update(mid, e as int, self.snakes@[e as int]);
                        assert(stamps_follow(mid, self.snakes@));
                        lemma_stamps_trans(b0, mid, self.snakes@);
                    }
                } else {
                    proof {
                        lemma_stamps_refl(before);
                    }
                }
            } else {
                proof {
                    lemma_stamps_refl(before);
                }
            }
            proof {
                assert(self.snake_models() =~= apply_bite(mb, all[t as int]));
                lemma_stamps_trans(old(self).snakes@, before, self.snakes@);
            }
            t += 1;
        }
        assert(bites@.len() == all.len());
    }
}

} // verus!
