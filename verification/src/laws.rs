use crate::ai::may_step;
use crate::collisions::{
    after_crashes, after_meetings, contends, crashes, first_strong, group_size, head_winner,
    loses_meeting, meeting_gain, spoils, strong, strong_count,
};
use crate::game::alive_count;
use crate::types::{
    abs_int, bot_palette, delta_x, delta_y, on_board, reverse_of, taxicab, with_turn, Direction,
    Point, SnakeModel,
};
use crate::world::{capped_bots, start_line_up};
use vstd::prelude::*;

verus! {

/// Reversing a direction twice gives the direction back.
pub proof fn law_opposite_involution(d: Direction)
    ensures
        reverse_of(reverse_of(d)) == d,
        reverse_of(d) != d,
{
}

/// The step of the opposite direction is the negated step.
pub proof fn law_opposite_delta(d: Direction)
    ensures
        delta_x(reverse_of(d)) == -delta_x(d),
        delta_y(reverse_of(d)) == -delta_y(d),
        delta_x(d) * delta_x(d) + delta_y(d) * delta_y(d) == 1,
{
}

/// A step followed by a step in the opposite direction returns to the start.
pub proof fn law_step_back(p: Point, d: Direction)
    requires
        p.can_step(d),
    ensures
        p.stepped(d).can_step(reverse_of(d)),
        p.stepped(d).stepped(reverse_of(d)) == p,
        taxicab(p, p.stepped(d)) == 1,
{
}

/// Taxicab distance is symmetric, never negative, and zero exactly between equal cells.
pub proof fn law_taxicab(a: Point, b: Point)
    ensures
        taxicab(a, b) == taxicab(b, a),
        taxicab(a, b) >= 0,
        taxicab(a, b) == 0 <==> a == b,
{
}

/// Taxicab distance obeys the triangle inequality.
pub proof fn law_taxicab_triangle(a: Point, b: Point, c: Point)
    ensures
        taxicab(a, c) <= taxicab(a, b) + taxicab(b, c),
{
}

/// The bots' palette repeats every six bots.
pub proof fn law_palette_period(i: nat)
    ensures
        bot_palette(i) == bot_palette(i + 6),
{
    assert((i + 6) % 6 == i % 6);
}

/// A queued turn never reverses the snake: if the queued direction is not the reverse
/// of the current one, neither turning nor moving changes that.
pub proof fn law_no_reversal(s: SnakeModel, d: Direction)
    requires
        s.next_dir != reverse_of(s.dir),
    ensures
        with_turn(s, d).next_dir != reverse_of(with_turn(s, d).dir),
        s.advanced().next_dir != reverse_of(s.advanced().dir),
{
}

/// Moving a living snake with a head keeps its length when no growth is pending,
/// and otherwise lengthens it by one and uses up one unit of growth; the new head is
/// one step from the old head in the queued direction, and the rest of the body follows.
pub proof fn law_move_length(s: SnakeModel)
    requires
        s.alive,
        s.body.len() > 0,
    ensures
        s.pending_growth == 0 ==> s.advanced().body.len() == s.body.len()
            && s.advanced().pending_growth == 0,
        s.pending_growth > 0 ==> s.advanced().body.len() == s.body.len() + 1
            && s.advanced().pending_growth == s.pending_growth - 1,
        s.advanced().body[0] == s.body[0].stepped(s.next_dir),
        forall|j: int|
            1 <= j < s.advanced().body.len() ==> #[trigger] s.advanced().body[j] == s.body[j - 1],
        s.advanced().body.len() + s.advanced().pending_growth == s.body.len() + s.pending_growth
            || s.pending_growth == 0,
{
}

/// A dead snake does not move.
pub proof fn law_dead_stay(s: SnakeModel)
    requires
        !s.alive,
    ensures
        s.advanced() == s,
{
}

/// A fresh round has the player first and `min(bot_count, MAX_BOTS)` bots after it,
/// all living and three cells long, each bot with the next id.
pub proof fn law_line_up(bot_count: int)
    requires
        bot_count >= 0,
    ensures
        start_line_up(bot_count).len() == capped_bots(bot_count) + 1,
        start_line_up(bot_count)[0].is_player,
        forall|k: int|
            1 <= k < start_line_up(bot_count).len() ==> !(#[trigger] start_line_up(
                bot_count,
            )[k]).is_player && start_line_up(bot_count)[k].id == k,
        forall|k: int|
            0 <= k < start_line_up(bot_count).len() ==> (#[trigger] start_line_up(
                bot_count,
            )[k]).alive && start_line_up(bot_count)[k].body.len() == 3,
{
}

/// After wall and self collisions, every living snake that has a head has it on the
/// board and nowhere else on its own body.
pub proof fn law_crashes_clear(m: Seq<SnakeModel>, k: int)
    requires
        0 <= k < m.len(),
        after_crashes(m)[k].alive,
        after_crashes(m)[k].body.len() > 0,
    ensures
        on_board(after_crashes(m)[k].body[0]),
        forall|j: int|
            1 <= j < after_crashes(m)[k].body.len() ==> #[trigger] after_crashes(m)[k].body[j]
                != after_crashes(m)[k].body[0],
{
    assert(!crashes(m[k]));
}

proof fn lemma_two_contenders(m: Seq<SnakeModel>, h: Point, i: int, j: int, n: int)
    requires
        0 <= i < n <= m.len(),
        0 <= j < n,
        i != j,
        contends(m[i], h),
        contends(m[j], h),
    ensures
        group_size(m, h, n) >= 2,
    decreases n,
{
    if n - 1 != i && n - 1 != j {
        lemma_two_contenders(m, h, i, j, n - 1);
    } else if n - 1 == i {
        lemma_one_contender(m, h, j, n - 1);
    } else {
        lemma_one_contender(m, h, i, n - 1);
    }
}

proof fn lemma_one_contender(m: Seq<SnakeModel>, h: Point, i: int, n: int)
    requires
        0 <= i < n <= m.len(),
        contends(m[i], h),
    ensures
        group_size(m, h, n) >= 1,
    decreases n,
{
    if n - 1 != i {
        lemma_one_contender(m, h, i, n - 1);
    }
}

/// After heads that met are resolved, no two living snakes have their heads on one cell.
pub proof fn law_meetings_leave_one_head(m: Seq<SnakeModel>, i: int, j: int)
    requires
        0 <= i < m.len(),
        0 <= j < m.len(),
        i != j,
        after_meetings(m)[i].alive,
        after_meetings(m)[j].alive,
        after_meetings(m)[i].body.len() > 0,
    ensures
        after_meetings(m)[j].head() != after_meetings(m)[i].head(),
{
    if after_meetings(m)[j].head() == after_meetings(m)[i].head() {
        let h = m[i].body[0];
        assert(contends(m[i], h));
        assert(contends(m[j], h));
        lemma_two_contenders(m, h, i, j, m.len() as int);
        assert(!loses_meeting(m, i));
        assert(!loses_meeting(m, j));
        assert(head_winner(m, h) == Some(i));
        assert(head_winner(m, h) == Some(j));
    }
}

/// When heads meet on a cell and the player's snake is among the longest there, the
/// first such player snake survives and takes the length of all the others there.
pub proof fn law_player_wins_meeting(m: Seq<SnakeModel>, i: int)
    requires
        0 <= i < m.len(),
        m[i].alive,
        m[i].body.len() > 0,
        group_size(m, m[i].body[0], m.len() as int) > 1,
        first_strong(m, m[i].body[0], true, m.len() as int) == Some(i),
    ensures
        after_meetings(m)[i].alive,
        after_meetings(m)[i].pending_growth == m[i].pending_growth + spoils(
            m,
            m[i].body[0],
            i,
            m.len() as int,
        ),
{
    let h = m[i].body[0];
    lemma_first_strong_counted(m, h, i, m.len() as int);
    assert(head_winner(m, h) == Some(i));
    assert(!loses_meeting(m, i));
    assert(meeting_gain(m, i) == spoils(m, h, i, m.len() as int));
}

proof fn lemma_first_strong_counted(m: Seq<SnakeModel>, h: Point, i: int, n: int)
    requires
        0 <= n <= m.len(),
        first_strong(m, h, true, n) == Some(i),
    ensures
        strong_count(m, h, true, n) > 0,
    decreases n,
{
    if n > 0 {
        if first_strong(m, h, true, n - 1) is Some {
            lemma_first_strong_counted(m, h, i, n - 1);
        }
    }
}

/// A snake the bot may step onto is on the board.
pub proof fn law_step_on_board(m: Seq<SnakeModel>, me: int, c: Point)
    requires
        may_step(m, me, c),
    ensures
        on_board(c),
{
}

} // verus!
