use crate::game::Game;
use crate::overlaps::occupancy;
use crate::types::{in_bounds, on_board, Color, Point, SnakeModel, HEIGHT, WIDTH};
use vstd::prelude::*;

verus! {

// ---------------------------------------------------------------------------
// Final standings
// ---------------------------------------------------------------------------

/// Snake `i` ranks above snake `j`: longer first, then living before dead, then the
/// player before bots, then the lower id, and on a full tie the earlier snake.
pub open spec fn ranks_above(m: Seq<SnakeModel>, i: int, j: int) -> bool {
    let a = m[i];
    let b = m[j];
    if a.body.len() != b.body.len() {
        a.body.len() > b.body.len()
    } else if a.alive != b.alive {
        a.alive
    } else if a.is_player != b.is_player {
        a.is_player
    } else if a.id != b.id {
        a.id < b.id
    } else {
        i < j
    }
}

/// `r` lists every snake of `m` once, from the best ranked to the worst.
pub open spec fn is_ranking(m: Seq<SnakeModel>, r: Seq<usize>, n: int) -> bool {
    &&& r.len() == n
    &&& forall|q: int| 0 <= q < r.len() ==> (#[trigger] r[q]) < n
    &&& forall|p: int, q: int| 0 <= p < q < r.len() ==> ranks_above(m, #[trigger] r[p] as int, #[trigger] r[q] as int)
}

/// Ranking is a strict total order on the snakes.
pub proof fn law_ranking_order(m: Seq<SnakeModel>, i: int, j: int, k: int)
    ensures
        !ranks_above(m, i, i),
        i != j ==> (ranks_above(m, i, j) || ranks_above(m, j, i)),
        !(ranks_above(m, i, j) && ranks_above(m, j, i)),
        ranks_above(m, i, j) && ranks_above(m, j, k) ==> ranks_above(m, i, k),
{
}

/// A ranking lists no snake twice.
pub proof fn law_ranking_distinct(m: Seq<SnakeModel>, r: Seq<usize>, n: int, p: int, q: int)
    requires
        is_ranking(m, r, n),
        0 <= p < q < r.len(),
    ensures
        r[p] != r[q],
{
    law_ranking_order(m, r[p] as int, r[q] as int, 0);
}

/// In a final ranking, of two snakes with bodies of different lengths the longer comes
/// first, whether either is alive or dead; among equal lengths a living snake comes
/// before a dead one, then the player's snake before a bot, then the lower id.
pub proof fn law_ranking_by_length(m: Seq<SnakeModel>, r: Seq<usize>, n: int, p: int, q: int)
    requires
        is_ranking(m, r, n),
        0 <= p < r.len(),
        0 <= q < r.len(),
    ensures
        m[r[p] as int].body.len() > m[r[q] as int].body.len() ==> p < q,
        m[r[p] as int].body.len() == m[r[q] as int].body.len() && m[r[p] as int].alive
            && !m[r[q] as int].alive ==> p < q,
        m[r[p] as int].body.len() == m[r[q] as int].body.len() && m[r[p] as int].alive
            == m[r[q] as int].alive && m[r[p] as int].is_player && !m[r[q] as int].is_player ==> p
            < q,
        m[r[p] as int].body.len() == m[r[q] as int].body.len() && m[r[p] as int].alive
            == m[r[q] as int].alive && m[r[p] as int].is_player == m[r[q] as int].is_player
            && m[r[p] as int].id < m[r[q] as int].id ==> p < q,
{
    if q < p {
        assert(ranks_above(m, r[q] as int, r[p] as int));
    }
}

impl Game {
    /// Indices of all snakes from the best ranked to the worst (see `ranks_above`).
    pub fn ranked_indices(&self) -> (r: Vec<usize>)
        ensures
            is_ranking(self.snake_models(), r@, self.snakes@.len() as int),
    {
        let ghost m = self.snake_models();
        let n = self.snakes.len();
        let mut order: Vec<usize> = Vec::new();
        let mut i: usize = 0;
        while i < n
            invariant
                n == self.snakes@.len() == m.len(),
                m == self.snake_models(),
                i <= n,
                is_ranking(m, order@, i as int),
            decreases n - i,
        {
            // The first place whose snake ranks below snake `i`.
            let mut p: usize = 0;
            while p < order.len()
                invariant
                    n == self.snakes@.len() == m.len(),
                    m == self.snake_models(),
                    i < n,
                    is_ranking(m, order@, i as int),
                    p <= order@.len(),
                    forall|q: int| 0 <= q < p ==> ranks_above(m, #[trigger] order@[q] as int, i as int),
                ensures
                    p <= order@.len(),
                    p < order@.len() ==> ranks_above(m, i as int, order@[p as int] as int),
                    forall|q: int| 0 <= q < p ==> ranks_above(m, #[trigger] order@[q] as int, i as int),
                decreases order@.len() - p,
            {
                let o = order[p];
                if self.ranks_before(i, o) {
                    break;
                }
                proof {
                    law_ranking_order(m, i as int, o as int, 0);
                }
                p += 1;
            }
            let ghost before = order@;
            proof {
                assert forall|q: int| p <= q < before.len() implies ranks_above(
                    m,
                    i as int,
                    #[trigger] before[q] as int,
                ) by {
                    if q > p {
                        law_ranking_order(m, i as int, before[p as int] as int, before[q] as int);
                    }
                }
            }
            order.insert(p, i);
            proof {
                assert(order@ == before.insert(p as int, i));
                assert forall|a: int, b: int| 0 <= a < b < order@.len() implies ranks_above(
                    m,
                    #[trigger] order@[a] as int,
                    #[trigger] order@[b] as int,
                ) by {
                    if a < p && b < p {
                        assert(order@[a] == before[a] && order@[b] == before[b]);
                    } else if a < p && b == p {
                    } else if a < p {
                        assert(order@[a] == before[a] && order@[b] == before[b - 1]);
                    } else if a == p {
                        assert(order@[b] == before[b - 1]);
                    } else {
                        assert(order@[a] == before[a - 1] && order@[b] == before[b - 1]);
                    }
                }
            }
            i += 1;
        }
        order
    }

    /// Whether snake `i` ranks above snake `j`.
    fn ranks_before(&self, i: usize, j: usize) -> (r: bool)
        requires
            i < self.snakes@.len(),
            j < self.snakes@.len(),
        ensures
            r == ranks_above(self.snake_models(), i as int, j as int),
    {
        let a = &self.snakes[i];
        let b = &self.snakes[j];
        assert(self.snake_models()[i as int] == self.snakes@[i as int]@);
        assert(self.snake_models()[j as int] == self.snakes@[j as int]@);
        if a.len() != b.len() {
            a.len() > b.len()
        } else if a.alive != b.alive {
            a.alive
        } else if a.is_player != b.is_player {
            a.is_player
        } else if a.id != b.id {
            a.id < b.id
        } else {
            i < j
        }
    }
}

} // verus!
