use crate::collisions::{
    after_bites, after_crashes, after_meetings, all_bites, apply_bite, apply_bites, bite_ok,
    contends, crashes, group_size, head_winner, lemma_bite_keeps_mass, lemma_bites_valid, live_len,
    loses_meeting, mass, mass_fits, meeting_gain, spoils,
};
use crate::overlaps::{
    after_overlaps, cell_list, claim, claims, first_seen, lemma_cell_list_ok, lemma_occupancy_ok,
    lemma_rounds_keep_mass, occ_ok, occupancy, overlap_round, overlap_rounds, pairs_ok,
    round_prefix, settle,
};
use crate::collisions::lemma_mass_single;
use crate::game::{best_after, lemma_stamps_trans, models, stamps_follow, Game};
use crate::types::{on_board, GameSettings, Point, SnakeModel};
use crate::world::{
    after_fruit, search_outcome, bot_snake, bot_start, capped_bots, eaten_by, eater_of, free_cell, fruits_placed,
    start_line_up, uneaten,
};
use vstd::prelude::*;

verus! {

// ---------------------------------------------------------------------------
// Meetings of heads never add mass
// ---------------------------------------------------------------------------

/// Snake `k` wins a meeting of heads on its cell.
pub open spec fn wins_meeting(m: Seq<SnakeModel>, k: int) -> bool {
    m[k].live_head() is Some && group_size(m, m[k].body[0], m.len() as int) > 1 && !loses_meeting(
        m,
        k,
    )
}

/// Length that snake `j` gives to snake `k` in a meeting of heads.
pub open spec fn given(m: Seq<SnakeModel>, k: int, j: int) -> nat {
    if wins_meeting(m, k) && contends(m[j], m[k].body[0]) && j != k {
        m[j].body.len()
    } else {
        0
    }
}

/// What snake `k` receives from the first `jn` snakes.
pub open spec fn received(m: Seq<SnakeModel>, k: int, jn: int) -> nat
    decreases jn,
{
    if jn <= 0 {
        0
    } else {
        received(m, k, jn - 1) + given(m, k, jn - 1)
    }
}

/// What snake `j` gives to the first `kn` snakes.
pub open spec fn gave(m: Seq<SnakeModel>, j: int, kn: int) -> nat
    decreases kn,
{
    if kn <= 0 {
        0
    } else {
        gave(m, j, kn - 1) + given(m, kn - 1, j)
    }
}

/// Total received by the first `kn` snakes from the first `jn`.
pub open spec fn received_total(m: Seq<SnakeModel>, kn: int, jn: int) -> nat
    decreases kn,
{
    if kn <= 0 {
        0
    } else {
        received_total(m, kn - 1, jn) + received(m, kn - 1, jn)
    }
}

/// Total given by the first `jn` snakes to the first `kn`.
pub open spec fn gave_total(m: Seq<SnakeModel>, jn: int, kn: int) -> nat
    decreases jn,
{
    if jn <= 0 {
        0
    } else {
        gave_total(m, jn - 1, kn) + gave(m, jn - 1, kn)
    }
}

/// Length that snake `j` loses in a meeting of heads.
pub open spec fn lost(m: Seq<SnakeModel>, j: int) -> nat {
    if loses_meeting(m, j) {
        m[j].body.len()
    } else {
        0
    }
}

/// Sum of the lengths lost by the first `n` snakes.
pub open spec fn lost_total(m: Seq<SnakeModel>, n: int) -> nat
    decreases n,
{
    if n <= 0 {
        0
    } else {
        lost_total(m, n - 1) + lost(m, n - 1)
    }
}

/// Sum of the gains of the first `n` snakes.
pub open spec fn gain_total(m: Seq<SnakeModel>, n: int) -> nat
    decreases n,
{
    if n <= 0 {
        0
    } else {
        gain_total(m, n - 1) + meeting_gain(m, n - 1)
    }
}

/// Pending growth of the first `n` snakes plus the cells of those that live and keep living.
pub open spec fn kept_mass(m: Seq<SnakeModel>, n: int) -> nat
    decreases n,
{
    if n <= 0 {
        0
    } else {
        kept_mass(m, n - 1) + m[n - 1].pending_growth + if m[n - 1].alive && !loses_meeting(
            m,
            n - 1,
        ) {
            m[n - 1].body.len()
        } else {
            0
        }
    }
}

proof fn lemma_received_is_spoils(m: Seq<SnakeModel>, k: int, jn: int)
    requires
        0 <= k < m.len(),
        0 <= jn <= m.len(),
    ensures
        received(m, k, jn) == if wins_meeting(m, k) {
            spoils(m, m[k].body[0], k, jn)
        } else {
            0
        },
    decreases jn,
{
    if jn > 0 {
        lemma_received_is_spoils(m, k, jn - 1);
    }
}

proof fn lemma_gave_total_step(m: Seq<SnakeModel>, jn: int, kn: int)
    requires
        0 <= jn,
        1 <= kn,
    ensures
        gave_total(m, jn, kn) == gave_total(m, jn, kn - 1) + received(m, kn - 1, jn),
    decreases jn,
{
    if jn > 0 {
        lemma_gave_total_step(m, jn - 1, kn);
    }
}

proof fn lemma_swap(m: Seq<SnakeModel>, kn: int, jn: int)
    requires
        0 <= kn,
        0 <= jn,
    ensures
        received_total(m, kn, jn) == gave_total(m, jn, kn),
    decreases kn,
{
    if kn > 0 {
        lemma_swap(m, kn - 1, jn);
        lemma_gave_total_step(m, jn, kn);
    } else {
        lemma_gave_total_zero(m, jn);
    }
}

proof fn lemma_gave_total_zero(m: Seq<SnakeModel>, jn: int)
    ensures
        gave_total(m, jn, 0) == 0,
    decreases jn,
{
    if jn > 0 {
        lemma_gave_total_zero(m, jn - 1);
    }
}

/// Only the winner of snake `j`'s cell can receive from `j`, and only if `j` loses.
proof fn lemma_given_only_to_winner(m: Seq<SnakeModel>, k: int, j: int)
    requires
        0 <= k < m.len(),
        0 <= j < m.len(),
        given(m, k, j) > 0,
    ensures
        head_winner(m, m[j].body[0]) == Some(k),
        loses_meeting(m, j),
        given(m, k, j) == m[j].body.len(),
{
    let h = m[k].body[0];
    assert(contends(m[j], h));
    assert(m[j].body[0] == h);
    assert(head_winner(m, h) == Some(k));
}

proof fn lemma_gave_bound(m: Seq<SnakeModel>, j: int, kn: int)
    requires
        0 <= j < m.len(),
        0 <= kn <= m.len(),
    ensures
        gave(m, j, kn) <= lost(m, j),
        gave(m, j, kn) > 0 ==> (head_winner(m, m[j].body[0]) matches Some(w) && 0 <= w < kn
            && gave(m, j, kn) == given(m, w, j)),
    decreases kn,
{
    if kn > 0 {
        lemma_gave_bound(m, j, kn - 1);
        let k = kn - 1;
        if given(m, k, j) > 0 {
            lemma_given_only_to_winner(m, k, j);
            if gave(m, j, kn - 1) > 0 {
                let w = head_winner(m, m[j].body[0]).unwrap();
                assert(w < kn - 1);
                assert(w == k);
            }
        }
    }
}

proof fn lemma_gave_total_bound(m: Seq<SnakeModel>, jn: int)
    requires
        0 <= jn <= m.len(),
    ensures
        gave_total(m, jn, m.len() as int) <= lost_total(m, jn),
    decreases jn,
{
    if jn > 0 {
        lemma_gave_total_bound(m, jn - 1);
        lemma_gave_bound(m, jn - 1, m.len() as int);
    }
}

proof fn lemma_gain_total_is_received(m: Seq<SnakeModel>, n: int)
    requires
        0 <= n <= m.len(),
    ensures
        gain_total(m, n) == received_total(m, n, m.len() as int),
    decreases n,
{
    if n > 0 {
        lemma_gain_total_is_received(m, n - 1);
        lemma_received_is_spoils(m, n - 1, m.len() as int);
    }
}

proof fn lemma_mass_split(m: Seq<SnakeModel>, n: int)
    requires
        0 <= n <= m.len(),
    ensures
        mass(m, n) == kept_mass(m, n) + lost_total(m, n),
        mass(after_meetings(m), n) == kept_mass(m, n) + gain_total(m, n),
    decreases n,
{
    if n > 0 {
        lemma_mass_split(m, n - 1);
        let k = n - 1;
        assert(after_meetings(m)[k] == m[k].with_state(
            m[k].alive && !loses_meeting(m, k),
            m[k].pending_growth + meeting_gain(m, k),
        ));
        if loses_meeting(m, k) {
            assert(m[k].alive);
        }
    }
}

/// Resolving meetings of heads never adds to the mass of the snakes: what winners
/// gain, losers lost.
pub proof fn law_meetings_mass(m: Seq<SnakeModel>)
    ensures
        mass(after_meetings(m), m.len() as int) <= mass(m, m.len() as int),
        after_meetings(m).len() == m.len(),
{
    let n = m.len() as int;
    lemma_mass_split(m, n);
    lemma_gain_total_is_received(m, n);
    lemma_swap(m, n, n);
    lemma_gave_total_bound(m, n);
}


// ---------------------------------------------------------------------------
// Mass along a tick
// ---------------------------------------------------------------------------

/// Every snake after one move.
pub open spec fn advance_all(m: Seq<SnakeModel>) -> Seq<SnakeModel> {
    Seq::new(m.len(), |k: int| m[k].advanced())
}

/// Pending growth plus the cells that count, of one snake.
pub open spec fn weight(s: SnakeModel) -> nat {
    s.pending_growth + live_len(s)
}

proof fn lemma_mass_pointwise_le(a: Seq<SnakeModel>, b: Seq<SnakeModel>, n: int)
    requires
        0 <= n <= a.len(),
        a.len() == b.len(),
        forall|k: int| 0 <= k < n ==> weight(#[trigger] a[k]) <= weight(b[k]),
    ensures
        mass(a, n) <= mass(b, n),
    decreases n,
{
    if n > 0 {
        lemma_mass_pointwise_le(a, b, n - 1);
        assert(weight(a[n - 1]) <= weight(b[n - 1]));
    }
}

proof fn lemma_mass_pointwise_eq(a: Seq<SnakeModel>, b: Seq<SnakeModel>, n: int)
    requires
        0 <= n <= a.len(),
        a.len() == b.len(),
        forall|k: int| 0 <= k < n ==> weight(#[trigger] a[k]) == weight(b[k]),
    ensures
        mass(a, n) == mass(b, n),
    decreases n,
{
    if n > 0 {
        lemma_mass_pointwise_eq(a, b, n - 1);
        assert(weight(a[n - 1]) == weight(b[n - 1]));
    }
}

/// Moving keeps the mass of the snakes: a cell of growth becomes a cell of body.
pub proof fn law_move_mass(m: Seq<SnakeModel>)
    ensures
        mass(advance_all(m), m.len() as int) == mass(m, m.len() as int),
{
    assert forall|k: int| 0 <= k < m.len() implies weight(#[trigger] advance_all(m)[k]) == weight(
        m[k],
    ) by {
        let s = m[k];
        if s.alive && s.body.len() > 0 {
            if s.pending_growth == 0 {
                assert(s.advanced().body.len() == s.body.len());
            }
        }
    }
    lemma_mass_pointwise_eq(advance_all(m), m, m.len() as int);
}

/// Wall and self collisions never add to the mass of the snakes.
pub proof fn law_crashes_mass(m: Seq<SnakeModel>)
    ensures
        mass(after_crashes(m), m.len() as int) <= mass(m, m.len() as int),
{
    assert forall|k: int| 0 <= k < m.len() implies weight(#[trigger] after_crashes(m)[k]) <= weight(
        m[k],
    ) by {}
    lemma_mass_pointwise_le(after_crashes(m), m, m.len() as int);
}

proof fn lemma_apply_bites_mass(m: Seq<SnakeModel>, bites: Seq<(int, int, int)>, t: int)
    requires
        0 <= t <= bites.len(),
        forall|q: int| 0 <= q < bites.len() ==> bite_ok(m, #[trigger] bites[q]),
    ensures
        apply_bites(m, bites, t).len() == m.len(),
        mass(apply_bites(m, bites, t), m.len() as int) == mass(m, m.len() as int),
    decreases t,
{
    if t > 0 {
        lemma_apply_bites_mass(m, bites, t - 1);
        assert(bite_ok(m, bites[t - 1]));
        lemma_bite_keeps_mass(apply_bites(m, bites, t - 1), bites[t - 1]);
    }
}

/// Bites move cells from victims to eaters: the mass of the snakes stays the same.
pub proof fn law_bites_mass(m: Seq<SnakeModel>)
    ensures
        after_bites(m).len() == m.len(),
        mass(after_bites(m), m.len() as int) == mass(m, m.len() as int),
{
    lemma_bites_valid(m);
    lemma_apply_bites_mass(m, all_bites(m), all_bites(m).len() as int);
}

/// Settling overlapping cells moves cells to their owners: the mass stays the same.
pub proof fn law_overlaps_mass(m: Seq<SnakeModel>)
    ensures
        after_overlaps(m).len() == m.len(),
        mass(after_overlaps(m), m.len() as int) == mass(m, m.len() as int),
{
    lemma_rounds_keep_mass(m, 3);
}

// ---------------------------------------------------------------------------
// Heads stay on the board
// ---------------------------------------------------------------------------

/// Every living snake has a body.
pub open spec fn bodies_kept(m: Seq<SnakeModel>) -> bool {
    forall|k: int| 0 <= k < m.len() && (#[trigger] m[k]).alive ==> m[k].body.len() > 0
}

/// Every living snake has a body whose head lies on the board.
pub open spec fn heads_placed(m: Seq<SnakeModel>) -> bool {
    forall|k: int|
        0 <= k < m.len() && (#[trigger] m[k]).alive ==> m[k].body.len() > 0 && on_board(
            m[k].body[0],
        )
}

proof fn lemma_bite_places(m: Seq<SnakeModel>, t: (int, int, int))
    requires
        bite_ok(m, t),
        heads_placed(m),
    ensures
        heads_placed(apply_bite(m, t)),
        apply_bite(m, t).len() == m.len(),
{
    let r = apply_bite(m, t);
    assert forall|k: int| 0 <= k < r.len() && (#[trigger] r[k]).alive implies r[k].body.len() > 0
        && on_board(r[k].body[0]) by {
        assert(m[k].alive);
        if k == t.1 && t.2 > 0 && t.2 < m[k].body.len() && m[t.0].alive && m[t.1].alive {
            assert(r[k].body == m[k].body.take(t.2 - 1));
            assert(r[k].body[0] == m[k].body[0]);
        }
    }
}

proof fn lemma_bites_place(m: Seq<SnakeModel>, bites: Seq<(int, int, int)>, t: int)
    requires
        0 <= t <= bites.len(),
        forall|q: int| 0 <= q < bites.len() ==> bite_ok(m, #[trigger] bites[q]),
        heads_placed(m),
    ensures
        heads_placed(apply_bites(m, bites, t)),
        apply_bites(m, bites, t).len() == m.len(),
    decreases t,
{
    if t > 0 {
        lemma_bites_place(m, bites, t - 1);
        assert(bite_ok(m, bites[t - 1]));
        lemma_bite_places(apply_bites(m, bites, t - 1), bites[t - 1]);
    }
}

proof fn lemma_claim_places(m: Seq<SnakeModel>, e: (int, int), owner: int)
    requires
        0 <= e.0 < m.len(),
        e.1 >= 0,
        0 <= owner < m.len(),
        heads_placed(m),
    ensures
        heads_placed(claim(m, e, owner)),
        claim(m, e, owner).len() == m.len(),
{
    let r = claim(m, e, owner);
    assert forall|k: int| 0 <= k < r.len() && (#[trigger] r[k]).alive implies r[k].body.len() > 0
        && on_board(r[k].body[0]) by {
        assert(m[k].alive);
        if k == e.0 && e.0 != owner && m[k].alive && e.1 > 0 {
            let kept = e.1 - 1;
            if kept <= m[k].body.len() {
                assert(r[k].body == m[k].body.take(kept));
                assert(r[k].body[0] == m[k].body[0]);
            }
        }
    }
}

proof fn lemma_claims_place(m: Seq<SnakeModel>, es: Seq<(int, int)>, owner: int, n: int)
    requires
        pairs_ok(es, m.len() as int),
        0 <= owner < m.len(),
        n <= es.len(),
        heads_placed(m),
    ensures
        heads_placed(claims(m, es, owner, n)),
        claims(m, es, owner, n).len() == m.len(),
    decreases n,
{
    if n > 0 {
        lemma_claims_place(m, es, owner, n - 1);
        assert(0 <= es[n - 1].0 < m.len() && es[n - 1].1 >= 0);
        lemma_claim_places(claims(m, es, owner, n - 1), es[n - 1], owner);
    }
}

proof fn lemma_settle_places(m: Seq<SnakeModel>, es: Seq<(int, int)>)
    requires
        pairs_ok(es, m.len() as int),
        heads_placed(m),
    ensures
        heads_placed(settle(m, es).0),
        settle(m, es).0.len() == m.len(),
{
    if crate::overlaps::contested(m, es) {
        let n = es.len() as int;
        let heads = crate::overlaps::head_in(m, es, n);
        lemma_best_below(m, es, heads, n);
        if let Some(b) = crate::overlaps::best_entry(m, es, heads, n) {
            assert(0 <= es[b].0 < m.len());
            lemma_claims_place(m, es, es[b].0, n);
        }
    }
}

proof fn lemma_best_below(m: Seq<SnakeModel>, es: Seq<(int, int)>, heads: bool, n: int)
    ensures
        crate::overlaps::best_entry(m, es, heads, n) matches Some(b) ==> 0 <= b < n,
    decreases n,
{
    if n > 0 {
        lemma_best_below(m, es, heads, n - 1);
    }
}

proof fn lemma_round_prefix_places(m: Seq<SnakeModel>, occ: Seq<(int, int, Point)>, p: int)
    requires
        occ_ok(occ, m.len() as int),
        p <= occ.len(),
        heads_placed(m),
    ensures
        heads_placed(round_prefix(m, occ, p).0),
        round_prefix(m, occ, p).0.len() == m.len(),
    decreases p,
{
    if p > 0 {
        lemma_round_prefix_places(m, occ, p - 1);
        let mp = round_prefix(m, occ, p - 1).0;
        if first_seen(occ, p - 1) {
            lemma_cell_list_ok(occ, occ[p - 1].2, occ.len() as int, m.len() as int);
            lemma_settle_places(mp, cell_list(occ, occ[p - 1].2, occ.len() as int));
        }
    }
}

proof fn lemma_rounds_place(m: Seq<SnakeModel>, r: int)
    requires
        heads_placed(m),
    ensures
        heads_placed(overlap_rounds(m, r)),
    decreases r,
{
    if r > 0 {
        lemma_occupancy_ok(m);
        lemma_round_prefix_places(m, occupancy(m), occupancy(m).len() as int);
        let (m1, had) = overlap_round(m);
        if had {
            lemma_rounds_place(m1, r - 1);
        }
    }
}

/// A tick's collision steps leave every living snake with its head on the board,
/// provided every living snake had a body before the move.
pub proof fn law_collisions_place_heads(m: Seq<SnakeModel>)
    requires
        bodies_kept(m),
    ensures
        heads_placed(after_crashes(after_meetings(advance_all(m)))),
        heads_placed(
            after_overlaps(after_bites(after_crashes(after_meetings(advance_all(m))))),
        ),
{
    let m1 = advance_all(m);
    assert(bodies_kept(m1)) by {
        assert forall|k: int| 0 <= k < m1.len() && (#[trigger] m1[k]).alive implies m1[k].body.len()
            > 0 by {
            assert(m[k].alive);
        }
    }
    let m2 = after_meetings(m1);
    assert(bodies_kept(m2)) by {
        assert forall|k: int| 0 <= k < m2.len() && (#[trigger] m2[k]).alive implies m2[k].body.len()
            > 0 by {
            assert(m1[k].alive);
        }
    }
    let m3 = after_crashes(m2);
    assert(heads_placed(m3)) by {
        assert forall|k: int| 0 <= k < m3.len() && (#[trigger] m3[k]).alive implies m3[k].body.len()
            > 0 && on_board(m3[k].body[0]) by {
            assert(m2[k].alive);
            assert(!crashes(m2[k]));
        }
    }
    lemma_bites_valid(m3);
    lemma_bites_place(m3, all_bites(m3), all_bites(m3).len() as int);
    lemma_rounds_place(after_bites(m3), 3);
}


/// The snakes after the collision steps of a tick that starts from `m`.
pub open spec fn after_collisions(m: Seq<SnakeModel>) -> Seq<SnakeModel> {
    after_overlaps(after_bites(after_crashes(after_meetings(advance_all(m)))))
}


// ---------------------------------------------------------------------------
// Fruit feeds one snake each
// ---------------------------------------------------------------------------

/// How many of the first `n` fruits the first `kn` snakes eat together.
pub open spec fn eaten_total(m: Seq<SnakeModel>, fruits: Seq<Point>, kn: int, n: int) -> nat
    decreases kn,
{
    if kn <= 0 {
        0
    } else {
        eaten_total(m, fruits, kn - 1, n) + eaten_by(m, fruits, kn - 1, n)
    }
}

/// Whether fruit `f` goes to one of the first `kn` snakes.
pub open spec fn fed_among(m: Seq<SnakeModel>, fruits: Seq<Point>, f: int, kn: int) -> nat
    decreases kn,
{
    if kn <= 0 {
        0
    } else {
        fed_among(m, fruits, f, kn - 1) + if eater_of(m, fruits[f], m.len() as int) == Some(
            kn - 1,
        ) {
            1nat
        } else {
            0nat
        }
    }
}

proof fn lemma_eater_below(m: Seq<SnakeModel>, p: Point, n: int)
    ensures
        eater_of(m, p, n) matches Some(k) ==> 0 <= k < n,
    decreases n,
{
    if n > 0 {
        lemma_eater_below(m, p, n - 1);
    }
}

proof fn lemma_fed_among(m: Seq<SnakeModel>, fruits: Seq<Point>, f: int, kn: int)
    requires
        0 <= kn,
    ensures
        fed_among(m, fruits, f, kn) == match eater_of(m, fruits[f], m.len() as int) {
            Some(k) => if k < kn {
                1nat
            } else {
                0nat
            },
            None => 0nat,
        },
    decreases kn,
{
    lemma_eater_below(m, fruits[f], m.len() as int);
    if kn > 0 {
        lemma_fed_among(m, fruits, f, kn - 1);
    }
}

proof fn lemma_eaten_total_step(m: Seq<SnakeModel>, fruits: Seq<Point>, kn: int, n: int)
    requires
        0 <= kn,
        1 <= n <= fruits.len(),
    ensures
        eaten_total(m, fruits, kn, n) == eaten_total(m, fruits, kn, n - 1) + fed_among(
            m,
            fruits,
            n - 1,
            kn,
        ),
    decreases kn,
{
    if kn > 0 {
        lemma_eaten_total_step(m, fruits, kn - 1, n);
    }
}

proof fn lemma_eaten_total_zero(m: Seq<SnakeModel>, fruits: Seq<Point>, kn: int)
    ensures
        eaten_total(m, fruits, kn, 0) == 0,
    decreases kn,
{
    if kn > 0 {
        lemma_eaten_total_zero(m, fruits, kn - 1);
    }
}

proof fn lemma_eaten_total_count(m: Seq<SnakeModel>, fruits: Seq<Point>, n: int)
    requires
        0 <= n <= fruits.len(),
    ensures
        eaten_total(m, fruits, m.len() as int, n) + uneaten(m, fruits, n).len() == n,
    decreases n,
{
    if n > 0 {
        lemma_eaten_total_count(m, fruits, n - 1);
        lemma_eaten_total_step(m, fruits, m.len() as int, n);
        lemma_fed_among(m, fruits, n - 1, m.len() as int);
        lemma_eater_below(m, fruits[n - 1], m.len() as int);
    } else {
        lemma_eaten_total_zero(m, fruits, m.len() as int);
    }
}

proof fn lemma_fruit_mass(m: Seq<SnakeModel>, fruits: Seq<Point>, kn: int)
    requires
        0 <= kn <= m.len(),
    ensures
        mass(after_fruit(m, fruits), kn) == mass(m, kn) + eaten_total(
            m,
            fruits,
            kn,
            fruits.len() as int,
        ),
    decreases kn,
{
    if kn > 0 {
        lemma_fruit_mass(m, fruits, kn - 1);
    }
}

/// Each eaten fruit feeds exactly one snake: the mass of the snakes grows by the
/// number of fruits eaten, which is the number of fruits that disappear.
pub proof fn law_fruit_mass(m: Seq<SnakeModel>, fruits: Seq<Point>)
    ensures
        mass(after_fruit(m, fruits), m.len() as int) + uneaten(
            m,
            fruits,
            fruits.len() as int,
        ).len() == mass(m, m.len() as int) + fruits.len(),
{
    lemma_fruit_mass(m, fruits, m.len() as int);
    lemma_eaten_total_count(m, fruits, fruits.len() as int);
}

/// Over a whole tick the mass of the snakes grows by at most the number of fruits on
/// the board when it starts.
pub proof fn law_tick_mass(m: Seq<SnakeModel>, fruits: Seq<Point>)
    ensures
        mass(after_fruit(after_collisions(m), fruits), m.len() as int) <= mass(m, m.len() as int)
            + fruits.len(),
{
    law_move_mass(m);
    let m1 = advance_all(m);
    law_meetings_mass(m1);
    let m2 = after_meetings(m1);
    law_crashes_mass(m2);
    let m3 = after_crashes(m2);
    law_bites_mass(m3);
    let m4 = after_bites(m3);
    law_overlaps_mass(m4);
    let m5 = after_overlaps(m4);
    law_fruit_mass(m5, fruits);
}


// ---------------------------------------------------------------------------
// Dead snakes are left alone
// ---------------------------------------------------------------------------

proof fn lemma_bites_skip_dead(m: Seq<SnakeModel>, bites: Seq<(int, int, int)>, t: int, k: int)
    requires
        0 <= t <= bites.len(),
        forall|q: int| 0 <= q < bites.len() ==> bite_ok(m, #[trigger] bites[q]),
        0 <= k < m.len(),
        !m[k].alive,
    ensures
        apply_bites(m, bites, t)[k] == m[k],
        apply_bites(m, bites, t).len() == m.len(),
    decreases t,
{
    if t > 0 {
        lemma_bites_skip_dead(m, bites, t - 1, k);
        assert(bite_ok(m, bites[t - 1]));
    }
}

proof fn lemma_best_alive(m: Seq<SnakeModel>, es: Seq<(int, int)>, heads: bool, n: int)
    ensures
        crate::overlaps::best_entry(m, es, heads, n) matches Some(b) ==> crate::overlaps::entry_alive(
            m,
            es[b],
        ),
    decreases n,
{
    if n > 0 {
        lemma_best_alive(m, es, heads, n - 1);
    }
}

proof fn lemma_claims_skip_dead(m: Seq<SnakeModel>, es: Seq<(int, int)>, owner: int, n: int, k: int)
    requires
        pairs_ok(es, m.len() as int),
        0 <= owner < m.len(),
        m[owner].alive,
        n <= es.len(),
        0 <= k < m.len(),
        !m[k].alive,
    ensures
        claims(m, es, owner, n)[k] == m[k],
        claims(m, es, owner, n)[owner].alive,
        claims(m, es, owner, n).len() == m.len(),
    decreases n,
{
    if n > 0 {
        lemma_claims_skip_dead(m, es, owner, n - 1, k);
        assert(0 <= es[n - 1].0 < m.len() && es[n - 1].1 >= 0);
    }
}

proof fn lemma_settle_skips_dead(m: Seq<SnakeModel>, es: Seq<(int, int)>, k: int)
    requires
        pairs_ok(es, m.len() as int),
        0 <= k < m.len(),
        !m[k].alive,
    ensures
        settle(m, es).0[k] == m[k],
        settle(m, es).0.len() == m.len(),
{
    if crate::overlaps::contested(m, es) {
        let n = es.len() as int;
        let heads = crate::overlaps::head_in(m, es, n);
        lemma_best_below(m, es, heads, n);
        lemma_best_alive(m, es, heads, n);
        if let Some(b) = crate::overlaps::best_entry(m, es, heads, n) {
            assert(0 <= es[b].0 < m.len());
            lemma_claims_skip_dead(m, es, es[b].0, n, k);
        }
    }
}

proof fn lemma_round_prefix_skips_dead(m: Seq<SnakeModel>, occ: Seq<(int, int, Point)>, p: int, k: int)
    requires
        occ_ok(occ, m.len() as int),
        p <= occ.len(),
        0 <= k < m.len(),
        !m[k].alive,
    ensures
        round_prefix(m, occ, p).0[k] == m[k],
        round_prefix(m, occ, p).0.len() == m.len(),
    decreases p,
{
    if p > 0 {
        lemma_round_prefix_skips_dead(m, occ, p - 1, k);
        let mp = round_prefix(m, occ, p - 1).0;
        if first_seen(occ, p - 1) {
            lemma_cell_list_ok(occ, occ[p - 1].2, occ.len() as int, m.len() as int);
            lemma_settle_skips_dead(mp, cell_list(occ, occ[p - 1].2, occ.len() as int), k);
        }
    }
}

proof fn lemma_rounds_skip_dead(m: Seq<SnakeModel>, r: int, k: int)
    requires
        0 <= k < m.len(),
        !m[k].alive,
    ensures
        overlap_rounds(m, r)[k] == m[k],
    decreases r,
{
    if r > 0 {
        lemma_occupancy_ok(m);
        lemma_round_prefix_skips_dead(m, occupancy(m), occupancy(m).len() as int, k);
        let (m1, had) = overlap_round(m);
        if had {
            lemma_rounds_skip_dead(m1, r - 1, k);
        }
    }
}

proof fn lemma_dead_eat_nothing(m: Seq<SnakeModel>, fruits: Seq<Point>, k: int, n: int)
    requires
        0 <= k < m.len(),
        !m[k].alive,
        n <= fruits.len(),
    ensures
        eaten_by(m, fruits, k, n) == 0,
    decreases n,
{
    if n > 0 {
        lemma_dead_eat_nothing(m, fruits, k, n - 1);
        lemma_eater_alive(m, fruits[n - 1], m.len() as int);
    }
}

proof fn lemma_eater_alive(m: Seq<SnakeModel>, p: Point, n: int)
    requires
        n <= m.len(),
    ensures
        eater_of(m, p, n) matches Some(j) ==> m[j].alive,
    decreases n,
{
    if n > 0 {
        lemma_eater_alive(m, p, n - 1);
    }
}

/// No step of a tick changes a dead snake: it neither moves, nor wins or loses
/// anything, nor eats.
pub proof fn law_dead_untouched(m: Seq<SnakeModel>, fruits: Seq<Point>, k: int)
    requires
        0 <= k < m.len(),
        !m[k].alive,
    ensures
        advance_all(m)[k] == m[k],
        after_meetings(m)[k] == m[k],
        after_crashes(m)[k] == m[k],
        after_bites(m)[k] == m[k],
        after_overlaps(m)[k] == m[k],
        after_fruit(m, fruits)[k] == m[k],
{
    lemma_bites_valid(m);
    lemma_bites_skip_dead(m, all_bites(m), all_bites(m).len() as int, k);
    lemma_rounds_skip_dead(m, 3, k);
    lemma_dead_eat_nothing(m, fruits, k, fruits.len() as int);
    assert(after_fruit(m, fruits)[k] == m[k].with_state(m[k].alive, m[k].pending_growth));
}


/// When every living snake has its head on the board, every snake can move again
/// without leaving the range of `i32`, and every living snake has a body: a tick can
/// follow a tick.
pub proof fn law_placed_can_move(m: Seq<SnakeModel>)
    requires
        heads_placed(m),
    ensures
        bodies_kept(m),
        forall|k: int| 0 <= k < m.len() ==> (#[trigger] m[k]).can_advance(),
{
    assert forall|k: int| 0 <= k < m.len() implies (#[trigger] m[k]).can_advance() by {
        if m[k].alive {
            assert(on_board(m[k].body[0]));
        }
    }
}

impl Game {
    /// A tick can run on this state: every living head can take its next step within
    /// `i32`, and the cells, the pending growth and the fruit together fit in a `usize`.
    pub open spec fn fits_tick(&self) -> bool {
        &&& forall|k: int|
            0 <= k < self.snakes@.len() ==> (#[trigger] self.snakes@[k])@.can_advance()
        &&& mass(self.snake_models(), self.snakes@.len() as int) + self.fruits@.len()
            <= usize::MAX
    }

    /// This state is what one tick makes of `before`: the snakes moved, every collision
    /// was resolved, eaten fruit left the board and new fruit was placed on free cells,
    /// the high score followed the player's snake.
    pub open spec fn tick_of(&self, before: &Game) -> bool {
        &&& self.snake_models() == after_fruit(
            after_collisions(before.snake_models()),
            before.fruits@,
        )
        &&& ({
            let eaten_left = uneaten(
                after_collisions(before.snake_models()),
                before.fruits@,
                before.fruits@.len() as int,
            );
            &&& self.fruits@.len() >= eaten_left.len()
            &&& self.fruits@.take(eaten_left.len() as int) == eaten_left
            &&& self.fruits@.len() > eaten_left.len() ==> self.fruits@.len()
                <= before.settings.fruit_count
            &&& forall|k: int|
                eaten_left.len() <= k < self.fruits@.len() ==> free_cell(
                    self.fruits@.take(k),
                    self.snake_models(),
                    #[trigger] self.fruits@[k],
                )
        })
        &&& self.high_score as int == best_after(before.high_score as int, self.snake_models())
        &&& stamps_follow(before.snakes@, self.snakes@)
        &&& self.settings == before.settings
        &&& self.quit_requested == before.quit_requested
        &&& bodies_kept(before.snake_models()) ==> heads_placed(self.snake_models())
        &&& self.fruits@.len() < before.settings.fruit_count ==> search_outcome(
            self.fruits@,
            self.snake_models(),
            None,
        )
    }
}

impl Game {
    /// One tick after the bots have been steered: every snake moves; meetings of
    /// heads, walls and own bodies, bites and shared cells are resolved in that order;
    /// fruit is eaten, the high score recorded and the fruit refilled.
    pub fn advance(&mut self)
        requires
            old(self).fits_tick(),
        ensures
            final(self).tick_of(&*old(self)),
    {
        let ghost m0 = self.snake_models();
        let ghost f0 = self.fruits@;
        let ghost s0 = self.snakes@;
        let n = self.snakes.len();
        proof {
            law_move_mass(m0);
        }
        self.move_snakes();
        let ghost s1 = self.snakes@;
        proof {
            assert(models(s1).len() == s0.len());
            assert(self.snake_models() =~= advance_all(m0));
            assert forall|k: int| 0 <= k < n implies (#[trigger] s1[k]).alive == s0[k].alive by {
                assert(models(s1)[k] == s1[k]@);
                assert(m0[k] == s0[k]@);
                assert(advance_all(m0)[k] == m0[k].advanced());
            }
            assert(stamps_follow(s0, s1));
            law_meetings_mass(advance_all(m0));
        }
        self.resolve_head_to_head();
        let ghost s2 = self.snakes@;
        proof {
            law_crashes_mass(after_meetings(advance_all(m0)));
            lemma_stamps_trans(s0, s1, s2);
        }
        self.resolve_wall_and_self_collisions();
        let ghost s3 = self.snakes@;
        let ghost m3 = self.snake_models();
        proof {
            lemma_stamps_trans(s0, s2, s3);
            law_bites_mass(m3);
        }
        self.resolve_snake_eating();
        let ghost s4 = self.snakes@;
        let ghost m4 = self.snake_models();
        proof {
            lemma_stamps_trans(s0, s3, s4);
            law_overlaps_mass(m4);
        }
        self.resolve_cross_snake_overlaps();
        let ghost s5 = self.snakes@;
        let ghost m5 = self.snake_models();
        proof {
            lemma_stamps_trans(s0, s4, s5);
            assert(m5 == after_collisions(m0));
            assert forall|k: int| 0 <= k < n implies #[trigger] self.snakes@[k].pending_growth
                + self.fruits@.len() <= usize::MAX by {
                lemma_mass_single(m5, k, n as int);
                assert(m5[k].pending_growth == self.snakes@[k].pending_growth);
            }
        }
        self.resolve_fruit_eating();
        let ghost s6 = self.snakes@;
        proof {
            assert(models(s6).len() == s6.len());
            assert(after_fruit(m5, f0).len() == m5.len());
            assert forall|k: int| 0 <= k < n implies (#[trigger] s6[k]).alive == s5[k].alive by {
                assert(models(s6)[k] == s6[k]@);
                assert(m5[k] == s5[k]@);
            }
            assert(stamps_follow(s5, s6));
            lemma_stamps_trans(s0, s5, s6);
            if bodies_kept(m0) {
                law_collisions_place_heads(m0);
                let m6 = self.snake_models();
                assert forall|k: int| 0 <= k < m6.len() && (#[trigger] m6[k]).alive implies m6[k].body.len()
                    > 0 && on_board(m6[k].body[0]) by {
                    assert(m5[k].alive);
                }
            }
        }
        self.update_high_score();
        self.refill_fruits();
    }
}

/// The mass of the first snakes never exceeds that of more of them.
proof fn lemma_mass_grows(m: Seq<SnakeModel>, i: int, n: int)
    requires
        0 <= i <= n,
    ensures
        mass(m, i) <= mass(m, n),
    decreases n - i,
{
    if i < n {
        lemma_mass_grows(m, i, n - 1);
    }
}

impl Game {
    /// Whether a tick can run on this state (see `fits_tick`).
    pub fn tick_fits(&self) -> (r: bool)
        ensures
            r == self.fits_tick(),
    {
        let n = self.snakes.len();
        let mut total: usize = self.fruits.len();
        let mut i: usize = 0;
        while i < n
            invariant
                n == self.snakes@.len(),
                i <= n,
                total == mass(self.snake_models(), i as int) + self.fruits@.len(),
                forall|k: int| 0 <= k < i ==> (#[trigger] self.snakes@[k])@.can_advance(),
            decreases n - i,
        {
            let s = &self.snakes[i];
            assert(self.snake_models()[i as int] == s@);
            if s.alive {
                if let Some(h) = s.head() {
                    let (dx, dy) = s.next_dir.delta();
                    let nx: i64 = h.x as i64 + dx as i64;
                    let ny: i64 = h.y as i64 + dy as i64;
                    if nx < i32::MIN as i64 || nx > i32::MAX as i64 || ny < i32::MIN as i64 || ny
                        > i32::MAX as i64 {
                        return false;
                    }
                }
            }
            let cells: usize = if s.alive {
                s.len()
            } else {
                0
            };
            proof {
                lemma_mass_grows(self.snake_models(), i + 1, n as int);
            }
            match total.checked_add(s.pending_growth) {
                Some(t) => match t.checked_add(cells) {
                    Some(u) => {
                        total = u;
                    },
                    None => {
                        return false;
                    },
                },
                None => {
                    return false;
                },
            }
            i += 1;
        }
        true
    }
}

/// Every snake of a fresh round has its head on the board.
pub proof fn law_line_up_placed(bot_count: int)
    requires
        bot_count >= 0,
    ensures
        heads_placed(start_line_up(bot_count)),
{
    let m = start_line_up(bot_count);
    let b = capped_bots(bot_count);
    assert forall|k: int| 0 <= k < m.len() && (#[trigger] m[k]).alive implies m[k].body.len()
        > 0 && on_board(m[k].body[0]) by {
        if k > 0 {
            let i = k - 1;
            assert(m[k] == bot_snake(i, b));
            assert(0 <= (i + 1) * 20 / (b + 1) < 20) by (nonlinear_arith)
                requires
                    0 <= i < b,
            ;
            assert(m[k].body[0] == bot_start(i, b));
        }
    }
}

/// A tick that starts with every living head on the board ends with every living
/// head on the board, and every snake can then take its next step within `i32`:
/// of what a tick needs, only the bound on the mass can fail after a tick.
pub proof fn law_ticks_chain(before: Game, after: Game)
    requires
        heads_placed(before.snake_models()),
        after.tick_of(&before),
    ensures
        heads_placed(after.snake_models()),
        forall|k: int|
            0 <= k < after.snakes@.len() ==> (#[trigger] after.snakes@[k])@.can_advance(),
{
    law_placed_can_move(before.snake_models());
    law_placed_can_move(after.snake_models());
    assert forall|k: int| 0 <= k < after.snakes@.len() implies (#[trigger] after.snakes@[
        k
    ])@.can_advance() by {
        assert(after.snake_models()[k] == after.snakes@[k]@);
    }
}

/// Cells on the board have distinct row-major indices below `WIDTH * HEIGHT`.
proof fn lemma_cell_index(p: Point, q: Point)
    requires
        on_board(p),
        on_board(q),
    ensures
        0 <= p.y * 48 + p.x < 960,
        p.y * 48 + p.x == q.y * 48 + q.x ==> p == q,
{
    assert(0 <= p.y * 48 + p.x < 960) by (nonlinear_arith)
        requires
            0 <= p.x < 48,
            0 <= p.y < 20,
    ;
    assert(p.y * 48 + p.x == q.y * 48 + q.x ==> p.x == q.x && p.y == q.y) by (nonlinear_arith)
        requires
            0 <= p.x < 48,
            0 <= q.x < 48,
    ;
}

/// Fruit placed on free cells, one after the other, never outnumber the cells of
/// the board.
pub proof fn law_fruit_fits_board(fruits: Seq<Point>, m: Seq<SnakeModel>)
    requires
        fruits_placed(fruits, m),
    ensures
        fruits.len() <= 960,
{
    let idx = fruits.map_values(|p: Point| p.y * 48 + p.x);
    assert forall|i: int, j: int| 0 <= i < idx.len() && 0 <= j < idx.len() && i != j implies idx[i]
        != idx[j] by {
        let (a, b) = if i < j {
            (i, j)
        } else {
            (j, i)
        };
        assert(free_cell(fruits.take(b), m, fruits[b]));
        assert(free_cell(fruits.take(a), m, fruits[a]));
        assert(fruits.take(b)[a] == fruits[a]);
        lemma_cell_index(fruits[i], fruits[j]);
    }
    assert(idx.no_duplicates());
    idx.unique_seq_to_set();
    assert forall|v: int| idx.to_set().contains(v) implies vstd::set_lib::set_int_range(
        0,
        960,
    ).contains(v) by {
        let i = choose|i: int| 0 <= i < idx.len() && idx[i] == v;
        assert(free_cell(fruits.take(i), m, fruits[i]));
        lemma_cell_index(fruits[i], fruits[i]);
    }
    vstd::set_lib::lemma_int_range(0, 960);
    vstd::set_lib::lemma_len_subset(idx.to_set(), vstd::set_lib::set_int_range(0, 960));
}

/// Snakes that all live, are three cells long and have no growth pending weigh
/// three cells each.
proof fn lemma_mass_of_threes(m: Seq<SnakeModel>, n: int)
    requires
        0 <= n <= m.len(),
        forall|k: int|
            0 <= k < n ==> (#[trigger] m[k]).alive && m[k].body.len() == 3 && m[k].pending_growth
                == 0,
    ensures
        mass(m, n) == 3 * n,
    decreases n,
{
    if n > 0 {
        lemma_mass_of_threes(m, n - 1);
    }
}

/// A round that has just begun can always run its first tick.
pub proof fn law_fresh_round_fits_tick(g: Game, settings: GameSettings)
    requires
        g.fresh(settings),
    ensures
        g.fits_tick(),
        heads_placed(g.snake_models()),
{
    let m = g.snake_models();
    let b = capped_bots(settings.bot_count as int);
    law_line_up_placed(settings.bot_count as int);
    law_placed_can_move(m);
    assert forall|k: int| 0 <= k < g.snakes@.len() implies (#[trigger] g.snakes@[k])@.can_advance() by {
        assert(m[k] == g.snakes@[k]@);
    }
    assert forall|k: int| 0 <= k < m.len() implies (#[trigger] m[k]).alive && m[k].body.len() == 3
        && m[k].pending_growth == 0 by {
        if k > 0 {
            assert(m[k] == bot_snake(k - 1, b));
        }
    }
    lemma_mass_of_threes(m, m.len() as int);
    law_fruit_fits_board(g.fruits@, m);
    assert(b <= 6);
}

} // verus!
