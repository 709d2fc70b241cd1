use crate::collisions::{lemma_mass_pair, lemma_mass_update, live_len, mass, mass_fits};
use crate::game::{lemma_models_update, lemma_stamps_refl, lemma_stamps_trans, models, stamps_follow, Game};
use crate::types::{Point, SnakeModel};
use vstd::prelude::*;

verus! {

// ---------------------------------------------------------------------------
// Which snake covers which cell
// ---------------------------------------------------------------------------

/// The first `j` cells of snake `si`, each as (snake, segment, cell).
pub open spec fn seg_entries(m: Seq<SnakeModel>, si: int, j: int) -> Seq<(int, int, Point)>
    decreases j,
{
    if j <= 0 {
        Seq::empty()
    } else {
        seg_entries(m, si, j - 1).push((si, j - 1, m[si].body[j - 1]))
    }
}

/// The cells covered by the living snakes among the first `si`, snake by snake.
pub open spec fn occupancy_upto(m: Seq<SnakeModel>, si: int) -> Seq<(int, int, Point)>
    decreases si,
{
    if si <= 0 {
        Seq::empty()
    } else {
        occupancy_upto(m, si - 1) + if m[si - 1].alive {
            seg_entries(m, si - 1, m[si - 1].body.len() as int)
        } else {
            Seq::empty()
        }
    }
}

/// The cells covered by the living snakes, each with the snake and segment covering it.
pub open spec fn occupancy(m: Seq<SnakeModel>) -> Seq<(int, int, Point)> {
    occupancy_upto(m, m.len() as int)
}

/// Position `p` is where its cell first appears in the occupancy list.
pub open spec fn first_seen(occ: Seq<(int, int, Point)>, p: int) -> bool {
    forall|q: int| 0 <= q < p ==> (#[trigger] occ[q]).2 != occ[p].2
}

/// The (snake, segment) pairs among the first `n` entries that cover cell `c`, in order.
pub open spec fn cell_list(occ: Seq<(int, int, Point)>, c: Point, n: int) -> Seq<(int, int)>
    decreases n,
{
    if n <= 0 {
        Seq::empty()
    } else if occ[n - 1].2 == c {
        cell_list(occ, c, n - 1).push((occ[n - 1].0, occ[n - 1].1))
    } else {
        cell_list(occ, c, n - 1)
    }
}

// ---------------------------------------------------------------------------
// Settling one cell
// ---------------------------------------------------------------------------

/// The snake of a (snake, segment) pair still lives.
pub open spec fn entry_alive(m: Seq<SnakeModel>, e: (int, int)) -> bool {
    m[e.0].alive
}

/// The snake of the first living pair among the first `n`.
pub open spec fn first_alive(m: Seq<SnakeModel>, es: Seq<(int, int)>, n: int) -> Option<int>
    decreases n,
{
    if n <= 0 {
        None
    } else {
        match first_alive(m, es, n - 1) {
            Some(x) => Some(x),
            None => if entry_alive(m, es[n - 1]) {
                Some(es[n - 1].0)
            } else {
                None
            },
        }
    }
}

/// Some living pair among the first `n` belongs to a snake other than `x`.
pub open spec fn other_alive(m: Seq<SnakeModel>, es: Seq<(int, int)>, x: int, n: int) -> bool
    decreases n,
{
    if n <= 0 {
        false
    } else {
        other_alive(m, es, x, n - 1) || (entry_alive(m, es[n - 1]) && es[n - 1].0 != x)
    }
}

/// At least two different living snakes cover the cell.
pub open spec fn contested(m: Seq<SnakeModel>, es: Seq<(int, int)>) -> bool {
    match first_alive(m, es, es.len() as int) {
        Some(x) => other_alive(m, es, x, es.len() as int),
        None => false,
    }
}

/// A living head lies among the first `n` pairs.
pub open spec fn head_in(m: Seq<SnakeModel>, es: Seq<(int, int)>, n: int) -> bool
    decreases n,
{
    if n <= 0 {
        false
    } else {
        head_in(m, es, n - 1) || (entry_alive(m, es[n - 1]) && es[n - 1].1 == 0)
    }
}

/// How strongly a pair claims the cell: a head (when a head is there) first, then
/// length, then the lower id.
pub open spec fn claim_key(m: Seq<SnakeModel>, e: (int, int), heads: bool) -> (int, int, int) {
    (
        if heads && e.1 == 0 {
            1
        } else {
            0
        },
        m[e.0].body.len() as int,
        usize::MAX - m[e.0].id,
    )
}

/// Lexicographic order on claim keys.
pub open spec fn key_ge(a: (int, int, int), b: (int, int, int)) -> bool {
    a.0 > b.0 || (a.0 == b.0 && (a.1 > b.1 || (a.1 == b.1 && a.2 >= b.2)))
}

/// Position of the strongest living claim among the first `n` pairs; on a tie the
/// later pair wins.
pub open spec fn best_entry(m: Seq<SnakeModel>, es: Seq<(int, int)>, heads: bool, n: int) -> Option<
    int,
>
    decreases n,
{
    if n <= 0 {
        None
    } else {
        let prev = best_entry(m, es, heads, n - 1);
        if entry_alive(m, es[n - 1]) {
            match prev {
                None => Some(n - 1),
                Some(b) => if key_ge(claim_key(m, es[n - 1], heads), claim_key(m, es[b], heads)) {
                    Some(n - 1)
                } else {
                    prev
                },
            }
        } else {
            prev
        }
    }
}

/// The owner of a cell takes what another living snake has there: a head means the
/// whole snake (which dies); segment `s` means the snake is cut back to its first
/// `s - 1` cells (dying if none are left), the owner gaining the cells cut off.
pub open spec fn claim(m: Seq<SnakeModel>, e: (int, int), owner: int) -> Seq<SnakeModel> {
    let (si, seg) = e;
    if si == owner || !m[si].alive {
        m
    } else if seg == 0 {
        let vlen = m[si].body.len();
        let m1 = m.update(si, m[si].with_state(false, m[si].pending_growth));
        m1.update(owner, m1[owner].with_state(m1[owner].alive, m1[owner].pending_growth + vlen))
    } else {
        let vlen = m[si].body.len() as int;
        let kept = seg - 1;
        let nb = if kept <= vlen {
            m[si].body.take(kept)
        } else {
            m[si].body
        };
        let eaten = if vlen >= kept {
            (vlen - kept) as nat
        } else {
            0nat
        };
        let cut = m[si].with_body(nb);
        let m1 = m.update(si, cut.with_state(nb.len() > 0, cut.pending_growth));
        m1.update(owner, m1[owner].with_state(m1[owner].alive, m1[owner].pending_growth + eaten))
    }
}

/// The first `n` claims of the owner carried out in order.
pub open spec fn claims(m: Seq<SnakeModel>, es: Seq<(int, int)>, owner: int, n: int) -> Seq<
    SnakeModel,
>
    decreases n,
{
    if n <= 0 {
        m
    } else {
        claim(claims(m, es, owner, n - 1), es[n - 1], owner)
    }
}

/// A cell settled: if two different living snakes cover it, the strongest claim owns
/// it and takes what the others have there. The flag tells whether it was contested.
pub open spec fn settle(m: Seq<SnakeModel>, es: Seq<(int, int)>) -> (Seq<SnakeModel>, bool) {
    if !contested(m, es) {
        (m, false)
    } else {
        let n = es.len() as int;
        match best_entry(m, es, head_in(m, es, n), n) {
            None => (m, true),
            Some(b) => (claims(m, es, es[b].0, n), true),
        }
    }
}

// ---------------------------------------------------------------------------
// Rounds
// ---------------------------------------------------------------------------

/// The cells first seen among the first `p` occupancy entries settled in order,
/// starting from `m`; the flag tells whether any was contested.
pub open spec fn round_prefix(m: Seq<SnakeModel>, occ: Seq<(int, int, Point)>, p: int) -> (Seq<
    SnakeModel,
>, bool)
    decreases p,
{
    if p <= 0 {
        (m, false)
    } else {
        let (mp, had) = round_prefix(m, occ, p - 1);
        if first_seen(occ, p - 1) {
            let (mq, hc) = settle(mp, cell_list(occ, occ[p - 1].2, occ.len() as int));
            (mq, had || hc)
        } else {
            (mp, had)
        }
    }
}

/// One round: the occupancy is taken at its start, then every covered cell is settled
/// in the order it was first seen.
pub open spec fn overlap_round(m: Seq<SnakeModel>) -> (Seq<SnakeModel>, bool) {
    round_prefix(m, occupancy(m), occupancy(m).len() as int)
}

/// Up to `r` rounds, stopping after the first round that found no contested cell.
pub open spec fn overlap_rounds(m: Seq<SnakeModel>, r: int) -> Seq<SnakeModel>
    decreases r,
{
    if r <= 0 {
        m
    } else {
        let (m1, had) = overlap_round(m);
        if had {
            overlap_rounds(m1, r - 1)
        } else {
            m1
        }
    }
}

/// The snakes after cells covered by several snakes are settled (at most three rounds).
pub open spec fn after_overlaps(m: Seq<SnakeModel>) -> Seq<SnakeModel> {
    overlap_rounds(m, 3)
}

// ---------------------------------------------------------------------------
// Integer views of exec records
// ---------------------------------------------------------------------------

/// Occupancy records taken as integers.
pub open spec fn occ_ints(v: Seq<(usize, usize, Point)>) -> Seq<(int, int, Point)> {
    Seq::new(v.len(), |i: int| (v[i].0 as int, v[i].1 as int, v[i].2))
}

/// (snake, segment) pairs taken as integers.
pub open spec fn pair_ints(v: Seq<(usize, usize)>) -> Seq<(int, int)> {
    Seq::new(v.len(), |i: int| (v[i].0 as int, v[i].1 as int))
}

/// Every pair names a snake of the round and a segment index.
pub open spec fn pairs_ok(es: Seq<(int, int)>, n: int) -> bool {
    forall|q: int| 0 <= q < es.len() ==> 0 <= (#[trigger] es[q]).0 < n && es[q].1 >= 0
}

/// Every occupancy entry names a snake of the round and a segment index.
pub open spec fn occ_ok(occ: Seq<(int, int, Point)>, n: int) -> bool {
    forall|q: int| 0 <= q < occ.len() ==> 0 <= (#[trigger] occ[q]).0 < n && occ[q].1 >= 0
}

// ---------------------------------------------------------------------------
// Lemmas
// ---------------------------------------------------------------------------

proof fn lemma_no_other_before_first(m: Seq<SnakeModel>, es: Seq<(int, int)>, x: int, n: int)
    requires
        first_alive(m, es, n) is None,
    ensures
        !other_alive(m, es, x, n),
    decreases n,
{
    if n > 0 {
        lemma_no_other_before_first(m, es, x, n - 1);
    }
}

/// The key of a claim, computed.
fn claim_key_of(g: &Game, e: (usize, usize), heads: bool, Ghost(m): Ghost<Seq<SnakeModel>>) -> (r: (
    usize,
    usize,
    usize,
))
    requires
        m == g.snake_models(),
        e.0 < m.len(),
    ensures
        r.0 as int == claim_key(m, (e.0 as int, e.1 as int), heads).0,
        r.1 as int == claim_key(m, (e.0 as int, e.1 as int), heads).1,
        r.2 as int == claim_key(m, (e.0 as int, e.1 as int), heads).2,
{
    assert(m[e.0 as int] == g.snakes@[e.0 as int]@);
    let hp: usize = if heads && e.1 == 0 {
        1
    } else {
        0
    };
    (hp, g.snakes[e.0].len(), usize::MAX - g.snakes[e.0].id)
}

/// Lexicographic comparison of claim keys.
fn key_at_least(a: (usize, usize, usize), b: (usize, usize, usize)) -> (r: bool)
    ensures
        r == key_ge((a.0 as int, a.1 as int, a.2 as int), (b.0 as int, b.1 as int, b.2 as int)),
{
    a.0 > b.0 || (a.0 == b.0 && (a.1 > b.1 || (a.1 == b.1 && a.2 >= b.2)))
}

/// Whether the cell of occupancy entry `p` appears at an earlier entry.
fn seen_before(occ: &Vec<(usize, usize, Point)>, p: usize) -> (r: bool)
    requires
        p < occ@.len(),
    ensures
        r == !first_seen(occ_ints(occ@), p as int),
{
    let ghost oi = occ_ints(occ@);
    let c = occ[p].2;
    let mut q: usize = 0;
    while q < p
        invariant
            p < occ@.len(),
            oi == occ_ints(occ@),
            c == oi[p as int].2,
            q <= p,
            forall|k: int| 0 <= k < q ==> (#[trigger] oi[k]).2 != c,
        decreases p - q,
    {
        assert(oi[q as int].2 == occ@[q as int].2);
        if occ[q].2 == c {
            assert(oi[q as int].2 == oi[p as int].2);
            return true;
        }
        q += 1;
    }
    false
}

/// The (snake, segment) pairs that cover cell `c`, in occupancy order.
fn cell_entries(occ: &Vec<(usize, usize, Point)>, c: Point) -> (r: Vec<(usize, usize)>)
    ensures
        pair_ints(r@) == cell_list(occ_ints(occ@), c, occ@.len() as int),
{
    let ghost oi = occ_ints(occ@);
    let mut es: Vec<(usize, usize)> = Vec::new();
    let mut q: usize = 0;
    assert(pair_ints(es@) =~= cell_list(oi, c, 0));
    while q < occ.len()
        invariant
            oi == occ_ints(occ@),
            q <= occ@.len(),
            pair_ints(es@) == cell_list(oi, c, q as int),
        decreases occ@.len() - q,
    {
        let entry = occ[q];
        assert(oi[q as int] == (entry.0 as int, entry.1 as int, entry.2));
        if entry.2 == c {
            let ghost prev = es@;
            es.push((entry.0, entry.1));
            assert(pair_ints(es@) =~= pair_ints(prev).push((entry.0 as int, entry.1 as int)));
        }
        q += 1;
    }
    es
}

proof fn lemma_seg_entries_ok(m: Seq<SnakeModel>, si: int, j: int)
    requires
        0 <= si < m.len(),
    ensures
        occ_ok(seg_entries(m, si, j), m.len() as int),
        seg_entries(m, si, j).len() == if j > 0 {
            j
        } else {
            0
        },
    decreases j,
{
    if j > 0 {
        lemma_seg_entries_ok(m, si, j - 1);
        let s = seg_entries(m, si, j);
        assert forall|q: int| 0 <= q < s.len() implies 0 <= (#[trigger] s[q]).0 < m.len() && s[q].1
            >= 0 by {
            if q < s.len() - 1 {
                assert(s[q] == seg_entries(m, si, j - 1)[q]);
            }
        }
    }
}

proof fn lemma_occupancy_upto_ok(m: Seq<SnakeModel>, si: int)
    requires
        si <= m.len(),
    ensures
        occ_ok(occupancy_upto(m, si), m.len() as int),
    decreases si,
{
    if si > 0 {
        lemma_occupancy_upto_ok(m, si - 1);
        let a = occupancy_upto(m, si - 1);
        let b = if m[si - 1].alive {
            seg_entries(m, si - 1, m[si - 1].body.len() as int)
        } else {
            Seq::empty()
        };
        lemma_seg_entries_ok(m, si - 1, m[si - 1].body.len() as int);
        assert forall|q: int| 0 <= q < (a + b).len() implies 0 <= (#[trigger] (a + b)[q]).0 < m.len()
            && (a + b)[q].1 >= 0 by {
            if q < a.len() {
                assert((a + b)[q] == a[q]);
            } else {
                assert((a + b)[q] == b[q - a.len()]);
            }
        }
    }
}

/// Every occupancy entry names a snake of the round.
pub proof fn lemma_occupancy_ok(m: Seq<SnakeModel>)
    ensures
        occ_ok(occupancy(m), m.len() as int),
{
    lemma_occupancy_upto_ok(m, m.len() as int);
}

pub proof fn lemma_cell_list_ok(occ: Seq<(int, int, Point)>, c: Point, n: int, len: int)
    requires
        occ_ok(occ, len),
        n <= occ.len(),
    ensures
        pairs_ok(cell_list(occ, c, n), len),
    decreases n,
{
    if n > 0 {
        lemma_cell_list_ok(occ, c, n - 1, len);
        if occ[n - 1].2 == c {
            let s = cell_list(occ, c, n - 1).push((occ[n - 1].0, occ[n - 1].1));
            assert(cell_list(occ, c, n) == s);
            assert forall|q: int| 0 <= q < s.len() implies 0 <= (#[trigger] s[q]).0 < len && s[q].1
                >= 0 by {
                if q < s.len() - 1 {
                    assert(s[q] == cell_list(occ, c, n - 1)[q]);
                }
            }
        } else {
            assert(cell_list(occ, c, n) == cell_list(occ, c, n - 1));
        }
    }
}

/// A claim moves cells from the victim into the owner's pending growth: the mass
/// of all snakes stays the same.
pub proof fn lemma_claim_keeps_mass(m: Seq<SnakeModel>, e: (int, int), owner: int)
    requires
        0 <= e.0 < m.len(),
        e.1 >= 0,
        0 <= owner < m.len(),
    ensures
        claim(m, e, owner).len() == m.len(),
        mass(claim(m, e, owner), m.len() as int) == mass(m, m.len() as int),
{
    let (si, seg) = e;
    let n = m.len() as int;
    if si == owner || !m[si].alive {
    } else if seg == 0 {
        let vlen = m[si].body.len();
        let m1 = m.update(si, m[si].with_state(false, m[si].pending_growth));
        lemma_mass_update(m, si, m[si].with_state(false, m[si].pending_growth), n);
        lemma_mass_update(
            m1,
            owner,
            m1[owner].with_state(m1[owner].alive, m1[owner].pending_growth + vlen),
            n,
        );
    } else {
        let vlen = m[si].body.len() as int;
        let kept = seg - 1;
        let nb = if kept <= vlen {
            m[si].body.take(kept)
        } else {
            m[si].body
        };
        let eaten = if vlen >= kept {
            (vlen - kept) as nat
        } else {
            0nat
        };
        let cut = m[si].with_body(nb);
        assert(nb.len() + eaten == vlen);
        let m1 = m.update(si, cut.with_state(nb.len() > 0, cut.pending_growth));
        lemma_mass_update(m, si, cut.with_state(nb.len() > 0, cut.pending_growth), n);
        lemma_mass_update(
            m1,
            owner,
            m1[owner].with_state(m1[owner].alive, m1[owner].pending_growth + eaten),
            n,
        );
    }
}

pub proof fn lemma_claims_keep_mass(m: Seq<SnakeModel>, es: Seq<(int, int)>, owner: int, n: int)
    requires
        pairs_ok(es, m.len() as int),
        0 <= owner < m.len(),
        n <= es.len(),
    ensures
        claims(m, es, owner, n).len() == m.len(),
        mass(claims(m, es, owner, n), m.len() as int) == mass(m, m.len() as int),
    decreases n,
{
    if n > 0 {
        lemma_claims_keep_mass(m, es, owner, n - 1);
        assert(pairs_ok(es, m.len() as int));
        assert(0 <= es[n - 1].0 < m.len() && es[n - 1].1 >= 0);
        lemma_claim_keeps_mass(claims(m, es, owner, n - 1), es[n - 1], owner);
    }
}

proof fn lemma_best_entry_below(m: Seq<SnakeModel>, es: Seq<(int, int)>, heads: bool, n: int)
    ensures
        best_entry(m, es, heads, n) matches Some(b) ==> 0 <= b < n,
    decreases n,
{
    if n > 0 {
        lemma_best_entry_below(m, es, heads, n - 1);
    }
}

/// Settling a cell keeps the mass of all snakes.
pub proof fn lemma_settle_keeps_mass(m: Seq<SnakeModel>, es: Seq<(int, int)>)
    requires
        pairs_ok(es, m.len() as int),
    ensures
        settle(m, es).0.len() == m.len(),
        mass(settle(m, es).0, m.len() as int) == mass(m, m.len() as int),
{
    if contested(m, es) {
        let n = es.len() as int;
        lemma_best_entry_below(m, es, head_in(m, es, n), n);
        if let Some(b) = best_entry(m, es, head_in(m, es, n), n) {
            assert(0 <= es[b].0 < m.len());
            lemma_claims_keep_mass(m, es, es[b].0, n);
        }
    }
}

proof fn lemma_round_prefix_keeps_mass(m: Seq<SnakeModel>, occ: Seq<(int, int, Point)>, p: int)
    requires
        occ_ok(occ, m.len() as int),
        p <= occ.len(),
    ensures
        round_prefix(m, occ, p).0.len() == m.len(),
        mass(round_prefix(m, occ, p).0, m.len() as int) == mass(m, m.len() as int),
    decreases p,
{
    if p > 0 {
        lemma_round_prefix_keeps_mass(m, occ, p - 1);
        let mp = round_prefix(m, occ, p - 1).0;
        if first_seen(occ, p - 1) {
            let es = cell_list(occ, occ[p - 1].2, occ.len() as int);
            lemma_cell_list_ok(occ, occ[p - 1].2, occ.len() as int, m.len() as int);
            lemma_settle_keeps_mass(mp, es);
        }
    }
}

/// A round of settling keeps the mass of all snakes.
pub proof fn lemma_round_keeps_mass(m: Seq<SnakeModel>)
    ensures
        overlap_round(m).0.len() == m.len(),
        mass(overlap_round(m).0, m.len() as int) == mass(m, m.len() as int),
{
    lemma_occupancy_ok(m);
    lemma_round_prefix_keeps_mass(m, occupancy(m), occupancy(m).len() as int);
}

/// Settling overlapping cells, over any number of rounds, keeps the mass of all snakes.
pub proof fn lemma_rounds_keep_mass(m: Seq<SnakeModel>, r: int)
    ensures
        overlap_rounds(m, r).len() == m.len(),
        mass(overlap_rounds(m, r), m.len() as int) == mass(m, m.len() as int),
    decreases r,
{
    if r > 0 {
        lemma_round_keeps_mass(m);
        let (m1, had) = overlap_round(m);
        if had {
            lemma_rounds_keep_mass(m1, r - 1);
        }
    }
}

impl Game {
    /// The cells covered by the living snakes, snake by snake, segment by segment.
    fn occupancy_list(&self) -> (r: Vec<(usize, usize, Point)>)
        ensures
            occ_ints(r@) == occupancy(self.snake_models()),
    {
        let ghost m = self.snake_models();
        let n = self.snakes.len();
        let mut occ: Vec<(usize, usize, Point)> = Vec::new();
        let mut si: usize = 0;
        assert(occ_ints(occ@) =~= occupancy_upto(m, 0));
        while si < n
            invariant
                n == self.snakes@.len() == m.len(),
                m == self.snake_models(),
                si <= n,
                occ_ints(occ@) == occupancy_upto(m, si as int),
            decreases n - si,
        {
            assert(m[si as int] == self.snakes@[si as int]@);
            if self.snakes[si].alive {
                let len = self.snakes[si].body.len();
                let mut j: usize = 0;
                assert(occ_ints(occ@) =~= occupancy_upto(m, si as int) + seg_entries(m, si as int, 0));
                while j < len
                    invariant
                        n == self.snakes@.len() == m.len(),
                        m == self.snake_models(),
                        si < n,
                        len == m[si as int].body.len(),
                        j <= len,
                        occ_ints(occ@) == occupancy_upto(m, si as int) + seg_entries(
                            m,
                            si as int,
                            j as int,
                        ),
                    decreases len - j,
                {
                    let cell = self.snakes[si].body[j];
                    let ghost prev = occ@;
                    occ.push((si, j, cell));
                    assert(occ_ints(occ@) =~= occ_ints(prev).push((si as int, j as int, cell)));
                    assert(occupancy_upto(m, si as int) + seg_entries(m, si as int, j + 1) =~= (
                    occupancy_upto(m, si as int) + seg_entries(m, si as int, j as int)).push(
                        (si as int, j as int, cell),
                    ));
                    j += 1;
                }
                assert(occupancy_upto(m, si + 1) == occupancy_upto(m, si as int) + seg_entries(
                    m,
                    si as int,
                    len as int,
                ));
            } else {
                assert(occupancy_upto(m, si + 1) =~= occupancy_upto(m, si as int));
            }
            si += 1;
        }
        occ
    }

    /// Settles one cell (see `settle`); tells whether it was contested.
    fn settle_cell(&mut self, es: &Vec<(usize, usize)>) -> (r: bool)
        requires
            pairs_ok(pair_ints(es@), old(self).snakes@.len() as int),
            mass_fits(old(self).snake_models()) || !contested(
                old(self).snake_models(),
                pair_ints(es@),
            ),
        ensures
            final(self).snake_models() == settle(old(self).snake_models(), pair_ints(es@)).0,
            r == settle(old(self).snake_models(), pair_ints(es@)).1,
            stamps_follow(old(self).snakes@, final(self).snakes@),
            final(self).same_but_snakes(&*old(self)),
    {
        let ghost m = self.snake_models();
        let ghost ei = pair_ints(es@);
        let n = self.snakes.len();
        let ne = es.len();
        proof {
            lemma_stamps_refl(self.snakes@);
        }
        // Are two different living snakes on the cell?
        let mut first: Option<usize> = None;
        let mut other = false;
        let mut q: usize = 0;
        while q < ne
            invariant
                m == self.snake_models(),
                n == m.len(),
                ne == es@.len() == ei.len(),
                ei == pair_ints(es@),
                pairs_ok(ei, n as int),
                q <= ne,
                first matches Some(x) ==> first_alive(m, ei, q as int) == Some(x as int) && other
                    == other_alive(m, ei, x as int, q as int),
                first is None ==> first_alive(m, ei, q as int) is None && !other,
            decreases ne - q,
        {
            let (si, seg) = es[q];
            assert(ei[q as int] == (si as int, seg as int));
            assert(0 <= ei[q as int].0 < n);
            assert(m[si as int] == self.snakes@[si as int]@);
            if self.snakes[si].alive {
                match first {
                    None => {
                        first = Some(si);
                        proof {
                            lemma_no_other_before_first(m, ei, si as int, q as int);
                        }
                    },
                    Some(x) => {
                        if si != x {
                            other = true;
                        }
                    },
                }
            }
            q += 1;
        }
        if first.is_none() || !other {
            return false;
        }
        assert(contested(m, ei));
        assert(mass_fits(m));
        // Is a living head on the cell?
        let mut heads = false;
        let mut q: usize = 0;
        while q < ne
            invariant
                m == self.snake_models(),
                n == m.len(),
                ne == es@.len() == ei.len(),
                ei == pair_ints(es@),
                pairs_ok(ei, n as int),
                q <= ne,
                heads == head_in(m, ei, q as int),
            decreases ne - q,
        {
            let (si, seg) = es[q];
            assert(ei[q as int] == (si as int, seg as int));
            assert(0 <= ei[q as int].0 < n);
            assert(m[si as int] == self.snakes@[si as int]@);
            if self.snakes[si].alive && seg == 0 {
                heads = true;
            }
            q += 1;
        }
        // The strongest living claim; a later one wins a tie.
        let mut best: Option<usize> = None;
        let mut best_key: (usize, usize, usize) = (0, 0, 0);
        let mut q: usize = 0;
        while q < ne
            invariant
                m == self.snake_models(),
                n == m.len(),
                ne == es@.len() == ei.len(),
                ei == pair_ints(es@),
                pairs_ok(ei, n as int),
                heads == head_in(m, ei, ne as int),
                q <= ne,
                best matches Some(b) ==> best_entry(m, ei, heads, q as int) == Some(b as int) && b
                    < ne && best_key.0 as int == claim_key(m, ei[b as int], heads).0
                    && best_key.1 as int == claim_key(m, ei[b as int], heads).1 && best_key.2 as int
                    == claim_key(m, ei[b as int], heads).2,
                best is None ==> best_entry(m, ei, heads, q as int) is None,
            decreases ne - q,
        {
            let e = es[q];
            assert(ei[q as int] == (e.0 as int, e.1 as int));
            assert(0 <= ei[q as int].0 < n);
            assert(m[e.0 as int] == self.snakes@[e.0 as int]@);
            if self.snakes[e.0].alive {
                let k = claim_key_of(&*self, e, heads, Ghost(m));
                match best {
                    None => {
                        best = Some(q);
                        best_key = k;
                    },
                    Some(b) => {
                        if key_at_least(k, best_key) {
                            best = Some(q);
                            best_key = k;
                        }
                    },
                }
            }
            q += 1;
        }
        let b = match best {
            Some(b) => b,
            None => {
                return true;
            },
        };
        let owner = es[b].0;
        assert(ei[b as int] == (owner as int, es@[b as int].1 as int));
        assert(0 <= owner < n);
        // The owner takes what the others have on the cell.
        let mut t: usize = 0;
        while t < ne
            invariant
                m == old(self).snake_models(),
                n == self.snakes@.len() == m.len(),
                ne == es@.len() == ei.len(),
                ei == pair_ints(es@),
                pairs_ok(ei, n as int),
                owner < n,
                mass_fits(m),
                t <= ne,
                self.snake_models() == claims(m, ei, owner as int, t as int),
                mass(self.snake_models(), n as int) == mass(m, n as int),
                stamps_follow(old(self).snakes@, self.snakes@),
                self.same_but_snakes(&*old(self)),
            decreases ne - t,
        {
            let ghost before = self.snakes@;
            let ghost mb = self.snake_models();
            let (si, seg) = es[t];
            assert(ei[t as int] == (si as int, seg as int));
            assert(0 <= ei[t as int].0 < n && ei[t as int].1 >= 0);
            proof {
                lemma_claim_keeps_mass(mb, ei[t as int], owner as int);
                assert(mb[si as int] == self.snakes@[si as int]@);
                assert(mb[owner as int] == self.snakes@[owner as int]@);
                if si != owner {
                    lemma_mass_pair(mb, owner as int, si as int, n as int);
                }
            }
            if si != owner && self.snakes[si].alive {
                let vlen = self.snakes[si].len();
                if seg == 0 {
                    self.eliminate_snake(si);
                    let ghost mid = self.snakes@;
                    assert(models(mid)[owner as int] == mb[owner as int]);
                    self.snakes[owner].pending_growth += vlen;
                    proof {
                        assert(self.snakes@ == mid.update(owner as int, self.snakes@[owner as int]));
                        lemma_models_update(mid, owner as int, self.snakes@[owner as int]);
                        assert(stamps_follow(mid, self.snakes@));
                        lemma_stamps_trans(before, mid, self.snakes@);
                    }
                } else {
                    let kept = seg - 1;
                    let eaten = vlen.saturating_sub(kept);
                    let ghost b0 = self.snakes@;
                    self.snakes[si].body.truncate(kept);
                    let ghost b1 = self.snakes@;
                    proof {
                        assert(b1 == b0.update(si as int, b1[si as int]));
                        lemma_models_update(b0, si as int, b1[si as int]);
                        if kept <= vlen {
                            assert(b1[si as int]@ == mb[si as int].with_body(
                                mb[si as int].body.take(kept as int),
                            ));
                        } else {
                            assert(b1[si as int]@ == mb[si as int].with_body(mb[si as int].body));
                        }
                        assert(stamps_follow(b0, b1));
                    }
                    if self.snakes[si].body.len() == 0 {
                        self.eliminate_snake(si);
                    } else {
                        proof {
                            lemma_stamps_refl(b1);
                        }
                    }
                    let ghost mid = self.snakes@;
                    proof {
                        lemma_stamps_trans(b0, b1, mid);
                    }
                    assert(models(mid)[owner as int] == mb[owner as int]);
                    self.snakes[owner].pending_growth += eaten;
                    proof {
                        assert(self.snakes@ == mid.update(owner as int, self.snakes@[owner as int]));
                        lemma_models_update(mid, owner as int, self.snakes@[owner as int]);
                        assert(stamps_follow(mid, self.snakes@));
                        lemma_stamps_trans(b0, mid, self.snakes@);
                    }
                }
            } else {
                proof {
                    lemma_stamps_refl(before);
                }
            }
            proof {
                assert(self.snake_models() =~= claim(mb, ei[t as int], owner as int));
                lemma_stamps_trans(old(self).snakes@, before, self.snakes@);
            }
            t += 1;
        }
        true
    }

    /// One round: takes the occupancy, then settles every covered cell in the order
    /// it was first seen; tells whether any cell was contested.
    fn overlap_pass(&mut self) -> (r: bool)
        requires
            mass_fits(old(self).snake_models()) || apart(old(self).snake_models()),
        ensures
            final(self).snake_models() == overlap_round(old(self).snake_models()).0,
            r == overlap_round(old(self).snake_models()).1,
            stamps_follow(old(self).snakes@, final(self).snakes@),
            final(self).same_but_snakes(&*old(self)),
    {
        let ghost m0 = self.snake_models();
        let occ = self.occupancy_list();
        let ghost oi = occ_ints(occ@);
        proof {
            lemma_occupancy_ok(m0);
            lemma_stamps_refl(self.snakes@);
        }
        let n = self.snakes.len();
        let mut had = false;
        let mut p: usize = 0;
        while p < occ.len()
            invariant
                m0 == old(self).snake_models(),
                n == self.snakes@.len() == m0.len(),
                oi == occ_ints(occ@),
                oi == occupancy(m0),
                occ_ok(oi, n as int),
                mass_fits(m0) || (apart(m0) && self.snake_models() == m0 && !had),
                p <= occ@.len(),
                self.snake_models() == round_prefix(m0, oi, p as int).0,
                had == round_prefix(m0, oi, p as int).1,
                mass(self.snake_models(), n as int) == mass(m0, n as int),
                stamps_follow(old(self).snakes@, self.snakes@),
                self.same_but_snakes(&*old(self)),
            decreases occ@.len() - p,
        {
            let ghost before = self.snakes@;
            if !seen_before(&occ, p) {
                let c = occ[p].2;
                assert(oi[p as int].2 == c);
                let es = cell_entries(&occ, c);
                proof {
                    lemma_cell_list_ok(oi, c, oi.len() as int, n as int);
                    lemma_round_prefix_keeps_mass(m0, oi, p + 1);
                    if !mass_fits(m0) {
                        lemma_occupancy_upto_valid(m0, m0.len() as int);
                        lemma_cell_list_covers(m0, oi, c, oi.len() as int);
                        lemma_apart_uncontested(m0, cell_list(oi, c, oi.len() as int), c);
                    }
                }
                let hc = self.settle_cell(&es);
                had = had || hc;
                proof {
                    lemma_stamps_trans(old(self).snakes@, before, self.snakes@);
                    lemma_round_prefix_keeps_mass(m0, oi, p + 1);
                }
            }
            p += 1;
        }
        had
    }

    /// Cells covered by two or more living snakes are settled, for up to three rounds:
    /// each cell goes to its strongest claim, which takes what the others have there
    /// (see `settle`); rounds stop once a round finds nothing to settle.
    pub fn resolve_cross_snake_overlaps(&mut self)
        requires
            mass_fits(old(self).snake_models()) || apart(old(self).snake_models()),
        ensures
            final(self).snake_models() == after_overlaps(old(self).snake_models()),
            stamps_follow(old(self).snakes@, final(self).snakes@),
            final(self).same_but_snakes(&*old(self)),
    {
        let ghost m0 = self.snake_models();
        let n = self.snakes.len();
        proof {
            lemma_stamps_refl(self.snakes@);
        }
        let mut round: usize = 0;
        let mut going = true;
        while round < 3 && going
            invariant
                m0 == old(self).snake_models(),
                n == self.snakes@.len() == m0.len(),
                round <= 3,
                mass_fits(m0) || (apart(m0) && self.snake_models() == m0 && (round > 0 ==> !going)),
                mass(self.snake_models(), n as int) == mass(m0, n as int),
                going ==> after_overlaps(m0) == overlap_rounds(self.snake_models(), 3 - round),
                !going ==> after_overlaps(m0) == self.snake_models(),
                stamps_follow(old(self).snakes@, self.snakes@),
                self.same_but_snakes(&*old(self)),
            decreases 3 - round,
        {
            let ghost before = self.snakes@;
            let ghost mb = self.snake_models();
            proof {
                lemma_round_keeps_mass(mb);
                if !mass_fits(m0) {
                    law_overlaps_idle_when_apart(m0);
                }
            }
            let had = self.overlap_pass();
            proof {
                lemma_stamps_trans(old(self).snakes@, before, self.snakes@);
            }
            if !had {
                going = false;
            }
            round += 1;
        }
    }
}

// ---------------------------------------------------------------------------
// Snakes that share no cell
// ---------------------------------------------------------------------------

/// No cell is covered by two different living snakes.
pub open spec fn apart(m: Seq<SnakeModel>) -> bool {
    forall|a: int, b: int, i: int, j: int|
        0 <= a < m.len() && 0 <= b < m.len() && a != b && m[a].alive && m[b].alive && 0 <= i
            < m[a].body.len() && 0 <= j < m[b].body.len() ==> #[trigger] m[a].body[i]
            != #[trigger] m[b].body[j]
}

/// Pair `e` is segment `e.1` of living snake `e.0`, and that segment lies on `c`.
pub open spec fn covers(m: Seq<SnakeModel>, e: (int, int), c: Point) -> bool {
    &&& 0 <= e.0 < m.len()
    &&& m[e.0].alive
    &&& 0 <= e.1 < m[e.0].body.len()
    &&& m[e.0].body[e.1] == c
}

/// Every occupancy entry is a segment of a living snake, with its cell.
pub open spec fn occ_valid(m: Seq<SnakeModel>, occ: Seq<(int, int, Point)>) -> bool {
    forall|q: int| 0 <= q < occ.len() ==> covers(m, ((#[trigger] occ[q]).0, occ[q].1), occ[q].2)
}

proof fn lemma_seg_entries_exact(m: Seq<SnakeModel>, si: int, j: int)
    requires
        0 <= j,
    ensures
        seg_entries(m, si, j).len() == j,
        forall|q: int| 0 <= q < j ==> #[trigger] seg_entries(m, si, j)[q] == (si, q, m[si].body[q]),
    decreases j,
{
    if j > 0 {
        lemma_seg_entries_exact(m, si, j - 1);
        assert forall|q: int| 0 <= q < j implies #[trigger] seg_entries(m, si, j)[q] == (
            si,
            q,
            m[si].body[q],
        ) by {
            if q < j - 1 {
                assert(seg_entries(m, si, j)[q] == seg_entries(m, si, j - 1)[q]);
            }
        }
    }
}

pub proof fn lemma_occupancy_upto_valid(m: Seq<SnakeModel>, si: int)
    requires
        si <= m.len(),
    ensures
        occ_valid(m, occupancy_upto(m, si)),
    decreases si,
{
    if si > 0 {
        lemma_occupancy_upto_valid(m, si - 1);
        let a = occupancy_upto(m, si - 1);
        let len = m[si - 1].body.len() as int;
        let b = if m[si - 1].alive {
            seg_entries(m, si - 1, len)
        } else {
            Seq::empty()
        };
        lemma_seg_entries_exact(m, si - 1, len);
        assert(occupancy_upto(m, si) == a + b);
        assert forall|q: int| 0 <= q < (a + b).len() implies covers(
            m,
            ((#[trigger] (a + b)[q]).0, (a + b)[q].1),
            (a + b)[q].2,
        ) by {
            if q < a.len() {
                assert((a + b)[q] == a[q]);
            } else {
                assert((a + b)[q] == b[q - a.len()]);
            }
        }
    }
}

/// Every entry of the cells list of `c` covers `c`.
proof fn lemma_cell_list_covers(m: Seq<SnakeModel>, occ: Seq<(int, int, Point)>, c: Point, n: int)
    requires
        occ_valid(m, occ),
        n <= occ.len(),
    ensures
        forall|q: int|
            0 <= q < cell_list(occ, c, n).len() ==> covers(m, #[trigger] cell_list(occ, c, n)[q], c),
    decreases n,
{
    if n > 0 {
        lemma_cell_list_covers(m, occ, c, n - 1);
        let prev = cell_list(occ, c, n - 1);
        let cur = cell_list(occ, c, n);
        assert forall|q: int| 0 <= q < cur.len() implies covers(m, #[trigger] cur[q], c) by {
            if q < prev.len() {
                assert(cur[q] == prev[q]);
            } else {
                assert(occ[n - 1] == occ[n - 1]);
            }
        }
    }
}

proof fn lemma_first_alive_from(m: Seq<SnakeModel>, es: Seq<(int, int)>, n: int)
    ensures
        first_alive(m, es, n) matches Some(y) ==> exists|q: int| 0 <= q < n && (#[trigger] es[q]).0 == y,
    decreases n,
{
    if n > 0 {
        lemma_first_alive_from(m, es, n - 1);
    }
}

proof fn lemma_no_other_alive(m: Seq<SnakeModel>, es: Seq<(int, int)>, x: int, n: int)
    requires
        n <= es.len(),
        forall|q: int| 0 <= q < n ==> (#[trigger] es[q]).0 == x,
    ensures
        !other_alive(m, es, x, n),
    decreases n,
{
    if n > 0 {
        lemma_no_other_alive(m, es, x, n - 1);
    }
}

/// On snakes that share no cell, no cell is contested.
proof fn lemma_apart_uncontested(m: Seq<SnakeModel>, es: Seq<(int, int)>, c: Point)
    requires
        apart(m),
        forall|q: int| 0 <= q < es.len() ==> covers(m, #[trigger] es[q], c),
    ensures
        !contested(m, es),
{
    let n = es.len() as int;
    lemma_first_alive_from(m, es, n);
    if n > 0 {
        let x = es[0].0;
        assert forall|q: int| 0 <= q < n implies (#[trigger] es[q]).0 == x by {
            assert(covers(m, es[q], c));
            assert(covers(m, es[0], c));
            if es[q].0 != x {
                assert(m[es[q].0].body[es[q].1] == m[x].body[es[0].1]);
            }
        }
        lemma_no_other_alive(m, es, x, n);
    }
}

proof fn lemma_apart_round_prefix(m: Seq<SnakeModel>, occ: Seq<(int, int, Point)>, p: int)
    requires
        apart(m),
        occ_valid(m, occ),
        p <= occ.len(),
    ensures
        round_prefix(m, occ, p) == (m, false),
    decreases p,
{
    if p > 0 {
        lemma_apart_round_prefix(m, occ, p - 1);
        if first_seen(occ, p - 1) {
            let es = cell_list(occ, occ[p - 1].2, occ.len() as int);
            lemma_cell_list_covers(m, occ, occ[p - 1].2, occ.len() as int);
            lemma_apart_uncontested(m, es, occ[p - 1].2);
        }
    }
}

/// Settling shared cells changes nothing when no two living snakes share a cell:
/// a round finds nothing to settle, so settling twice in a row is settling once.
pub proof fn law_overlaps_idle_when_apart(m: Seq<SnakeModel>)
    requires
        apart(m),
    ensures
        overlap_round(m) == (m, false),
        after_overlaps(m) == m,
{
    lemma_occupancy_upto_valid(m, m.len() as int);
    lemma_apart_round_prefix(m, occupancy(m), occupancy(m).len() as int);
}

/// A second settling of shared cells right after one that left no two living snakes
/// on one cell changes no snake: the snakes keep their models and time stamps.
pub proof fn law_resettle_keeps_snakes(before: Game, after: Game)
    requires
        apart(before.snake_models()),
        after.snake_models() == after_overlaps(before.snake_models()),
        stamps_follow(before.snakes@, after.snakes@),
    ensures
        after.snake_models() == before.snake_models(),
        forall|k: int|
            0 <= k < after.snakes@.len() ==> (#[trigger] after.snakes@[k]).eliminated_at
                == before.snakes@[k].eliminated_at,
{
    law_overlaps_idle_when_apart(before.snake_models());
    assert forall|k: int| 0 <= k < after.snakes@.len() implies (#[trigger] after.snakes@[
        k
    ]).eliminated_at == before.snakes@[k].eliminated_at by {
        assert(after.snake_models()[k] == after.snakes@[k]@);
        assert(before.snake_models()[k] == before.snakes@[k]@);
    }
}

/// `b` is `a` after snakes only lost cells from their tails or died: every living
/// snake of `b` lived in `a` and its body begins that body.
pub open spec fn shrunk(a: Seq<SnakeModel>, b: Seq<SnakeModel>) -> bool {
    &&& a.len() == b.len()
    &&& forall|k: int|
        0 <= k < b.len() && (#[trigger] b[k]).alive ==> a[k].alive && b[k].body.len()
            <= a[k].body.len() && forall|i: int|
            0 <= i < b[k].body.len() ==> #[trigger] b[k].body[i] == a[k].body[i]
}

/// At most one living snake covers cell `c`.
pub open spec fn lone_on(m: Seq<SnakeModel>, c: Point) -> bool {
    forall|a: int, i: int, b: int, j: int|
        #[trigger] covers(m, (a, i), c) && #[trigger] covers(m, (b, j), c) ==> a == b
}

proof fn lemma_shrunk_refl(m: Seq<SnakeModel>)
    ensures
        shrunk(m, m),
{
}

proof fn lemma_shrunk_trans(a: Seq<SnakeModel>, b: Seq<SnakeModel>, c: Seq<SnakeModel>)
    requires
        shrunk(a, b),
        shrunk(b, c),
    ensures
        shrunk(a, c),
{
    assert forall|k: int| 0 <= k < c.len() && (#[trigger] c[k]).alive implies a[k].alive
        && c[k].body.len() <= a[k].body.len() && forall|i: int|
        0 <= i < c[k].body.len() ==> #[trigger] c[k].body[i] == a[k].body[i] by {
        assert(b[k].alive);
        assert forall|i: int| 0 <= i < c[k].body.len() implies #[trigger] c[k].body[i]
            == a[k].body[i] by {
            assert(c[k].body[i] == b[k].body[i]);
            assert(b[k].body[i] == a[k].body[i]);
        }
    }
}

proof fn lemma_shrunk_covers(a: Seq<SnakeModel>, b: Seq<SnakeModel>, e: (int, int), c: Point)
    requires
        shrunk(a, b),
        covers(b, e, c),
    ensures
        covers(a, e, c),
{
    assert(b[e.0].body[e.1] == a[e.0].body[e.1]);
}

proof fn lemma_shrunk_lone(a: Seq<SnakeModel>, b: Seq<SnakeModel>, c: Point)
    requires
        shrunk(a, b),
        lone_on(a, c),
    ensures
        lone_on(b, c),
{
    assert forall|x: int, i: int, y: int, j: int|
        #[trigger] covers(b, (x, i), c) && #[trigger] covers(b, (y, j), c) implies x == y by {
        lemma_shrunk_covers(a, b, (x, i), c);
        lemma_shrunk_covers(a, b, (y, j), c);
    }
}

/// A claim only shortens or kills snakes; a living snake other than the owner that
/// has the claimed segment is left dead or without that segment.
proof fn lemma_claim_shrinks(m: Seq<SnakeModel>, e: (int, int), owner: int)
    requires
        0 <= e.0 < m.len(),
        0 <= owner < m.len(),
        e.1 >= 0,
    ensures
        shrunk(m, claim(m, e, owner)),
        e.0 != owner && m[e.0].alive && e.1 < m[e.0].body.len() ==> !claim(m, e, owner)[e.0].alive
            || claim(m, e, owner)[e.0].body.len() <= e.1,
{
    let r = claim(m, e, owner);
    let (si, seg) = e;
    if si == owner || !m[si].alive {
    } else if seg == 0 {
        assert forall|k: int| 0 <= k < r.len() && (#[trigger] r[k]).alive implies m[k].alive
            && r[k].body.len() <= m[k].body.len() && forall|i: int|
            0 <= i < r[k].body.len() ==> #[trigger] r[k].body[i] == m[k].body[i] by {
            assert(r[k].body == m[k].body);
        }
    } else {
        let vlen = m[si].body.len() as int;
        let kept = seg - 1;
        assert forall|k: int| 0 <= k < r.len() && (#[trigger] r[k]).alive implies m[k].alive
            && r[k].body.len() <= m[k].body.len() && forall|i: int|
            0 <= i < r[k].body.len() ==> #[trigger] r[k].body[i] == m[k].body[i] by {
            if k == si {
                assert forall|i: int| 0 <= i < r[k].body.len() implies #[trigger] r[k].body[i]
                    == m[k].body[i] by {
                    if kept <= vlen {
                        assert(r[k].body == m[si].body.take(kept));
                    }
                }
            } else {
                assert(r[k].body == m[k].body);
            }
        }
    }
}

/// Carrying out the claims from the `a`-th to the `b`-th only shortens or kills snakes.
proof fn lemma_claims_shrink(m: Seq<SnakeModel>, es: Seq<(int, int)>, owner: int, a: int, b: int)
    requires
        0 <= a <= b <= es.len(),
        pairs_ok(es, m.len() as int),
        0 <= owner < m.len(),
    ensures
        shrunk(claims(m, es, owner, a), claims(m, es, owner, b)),
        claims(m, es, owner, b).len() == m.len(),
    decreases b,
{
    if b == a {
        lemma_claims_len(m, es, owner, b);
        lemma_shrunk_refl(claims(m, es, owner, a));
    } else {
        lemma_claims_shrink(m, es, owner, a, b - 1);
        let prev = claims(m, es, owner, b - 1);
        assert(0 <= es[b - 1].0 < m.len() && es[b - 1].1 >= 0);
        lemma_claim_shrinks(prev, es[b - 1], owner);
        lemma_shrunk_trans(claims(m, es, owner, a), prev, claims(m, es, owner, b));
    }
}

proof fn lemma_claims_len(m: Seq<SnakeModel>, es: Seq<(int, int)>, owner: int, n: int)
    requires
        0 <= n <= es.len(),
        pairs_ok(es, m.len() as int),
        0 <= owner < m.len(),
    ensures
        claims(m, es, owner, n).len() == m.len(),
    decreases n,
{
    if n > 0 {
        lemma_claims_len(m, es, owner, n - 1);
        assert(0 <= es[n - 1].0 < m.len());
    }
}

proof fn lemma_first_alive_some(m: Seq<SnakeModel>, es: Seq<(int, int)>, n: int, r: int)
    requires
        0 <= r < n,
        entry_alive(m, es[r]),
    ensures
        first_alive(m, es, n) is Some,
    decreases n,
{
    if r < n - 1 {
        lemma_first_alive_some(m, es, n - 1, r);
    }
}

proof fn lemma_first_alive_living(m: Seq<SnakeModel>, es: Seq<(int, int)>, n: int)
    ensures
        first_alive(m, es, n) matches Some(y) ==> exists|q: int|
            0 <= q < n && entry_alive(m, #[trigger] es[q]) && es[q].0 == y,
    decreases n,
{
    if n > 0 {
        lemma_first_alive_living(m, es, n - 1);
    }
}

proof fn lemma_other_alive_found(m: Seq<SnakeModel>, es: Seq<(int, int)>, x: int, n: int, r: int)
    requires
        0 <= r < n,
        entry_alive(m, es[r]),
        es[r].0 != x,
    ensures
        other_alive(m, es, x, n),
    decreases n,
{
    if r < n - 1 {
        lemma_other_alive_found(m, es, x, n - 1, r);
    }
}

proof fn lemma_best_entry_some(m: Seq<SnakeModel>, es: Seq<(int, int)>, heads: bool, n: int, r: int)
    requires
        0 <= r < n,
        entry_alive(m, es[r]),
    ensures
        best_entry(m, es, heads, n) is Some,
    decreases n,
{
    if r < n - 1 {
        lemma_best_entry_some(m, es, heads, n - 1, r);
    }
}

/// Settling cell `c` with the pairs that covered it in `m0` (all of them, and no
/// others), on a state that `m0` shrank to, leaves at most one living snake on `c`
/// and only shortens or kills snakes.
proof fn lemma_settle_lone(m0: Seq<SnakeModel>, m: Seq<SnakeModel>, es: Seq<(int, int)>, c: Point)
    requires
        shrunk(m0, m),
        forall|q: int| 0 <= q < es.len() ==> covers(m0, #[trigger] es[q], c),
        forall|x: int, j: int|
            #[trigger] covers(m0, (x, j), c) ==> exists|q: int|
                0 <= q < es.len() && #[trigger] es[q] == (x, j),
    ensures
        shrunk(m, settle(m, es).0),
        lone_on(settle(m, es).0, c),
{
    let n = es.len() as int;
    assert(pairs_ok(es, m.len() as int)) by {
        assert forall|q: int| 0 <= q < es.len() implies 0 <= (#[trigger] es[q]).0 < m.len()
            && es[q].1 >= 0 by {
            assert(covers(m0, es[q], c));
        }
    }
    if !contested(m, es) {
        lemma_shrunk_refl(m);
        assert forall|a: int, i: int, b: int, j: int|
            #[trigger] covers(m, (a, i), c) && #[trigger] covers(m, (b, j), c) implies a == b by {
            lemma_shrunk_covers(m0, m, (a, i), c);
            lemma_shrunk_covers(m0, m, (b, j), c);
            let qa = choose|q: int| 0 <= q < es.len() && #[trigger] es[q] == (a, i);
            let qb = choose|q: int| 0 <= q < es.len() && #[trigger] es[q] == (b, j);
            if a != b {
                lemma_first_alive_some(m, es, n, qa);
                let x = first_alive(m, es, n)->0;
                if a != x {
                    lemma_other_alive_found(m, es, x, n, qa);
                } else {
                    lemma_other_alive_found(m, es, x, n, qb);
                }
            }
        }
    } else {
        lemma_first_alive_living(m, es, n);
        let q0 = choose|q: int|
            0 <= q < n && entry_alive(m, #[trigger] es[q]) && es[q].0 == first_alive(
                m,
                es,
                n,
            )->0;
        let heads = head_in(m, es, n);
        lemma_best_entry_some(m, es, heads, n, q0);
        lemma_best_entry_below(m, es, heads, n);
        let bi = best_entry(m, es, heads, n)->0;
        let owner = es[bi].0;
        assert(covers(m0, es[bi], c));
        let r = claims(m, es, owner, n);
        lemma_claims_shrink(m, es, owner, 0, n);
        assert(settle(m, es).0 == r);
        assert forall|a: int, i: int, b: int, j: int|
            #[trigger] covers(r, (a, i), c) && #[trigger] covers(r, (b, j), c) implies a == b by {
            if a != b {
                let (v, t) = if a != owner {
                    (a, i)
                } else {
                    (b, j)
                };
                assert(covers(r, (v, t), c));
                lemma_shrunk_trans(m0, m, r);
                lemma_shrunk_covers(m0, r, (v, t), c);
                let q = choose|q: int| 0 <= q < es.len() && #[trigger] es[q] == (v, t);
                let mq = claims(m, es, owner, q);
                lemma_claims_shrink(m, es, owner, q, n);
                lemma_claims_shrink(m, es, owner, q + 1, n);
                lemma_claims_len(m, es, owner, q);
                lemma_shrunk_covers(mq, r, (v, t), c);
                lemma_claim_shrinks(mq, es[q], owner);
                assert(claims(m, es, owner, q + 1) == claim(mq, es[q], owner));
                let mq1 = claims(m, es, owner, q + 1);
                assert(r[v].alive);
                assert(mq1[v].alive);
            }
        }
    }
}

/// Every segment of a living snake among the first `si` appears in the occupancy.
proof fn lemma_occupancy_upto_complete(m: Seq<SnakeModel>, si: int, x: int, j: int)
    requires
        0 <= x < si <= m.len(),
        m[x].alive,
        0 <= j < m[x].body.len(),
    ensures
        exists|q: int|
            0 <= q < occupancy_upto(m, si).len() && #[trigger] occupancy_upto(m, si)[q] == (
                x,
                j,
                m[x].body[j],
            ),
    decreases si,
{
    let a = occupancy_upto(m, si - 1);
    let len = m[si - 1].body.len() as int;
    let b = if m[si - 1].alive {
        seg_entries(m, si - 1, len)
    } else {
        Seq::empty()
    };
    assert(occupancy_upto(m, si) == a + b);
    if x < si - 1 {
        lemma_occupancy_upto_complete(m, si - 1, x, j);
        let q = choose|q: int| 0 <= q < a.len() && #[trigger] a[q] == (x, j, m[x].body[j]);
        assert((a + b)[q] == a[q]);
    } else {
        lemma_seg_entries_exact(m, x, len);
        assert((a + b)[a.len() + j] == b[j]);
    }
}

/// Every entry on cell `c` among the first `n` appears in the cell's list.
proof fn lemma_cell_list_complete(occ: Seq<(int, int, Point)>, c: Point, n: int, q: int)
    requires
        0 <= q < n <= occ.len(),
        occ[q].2 == c,
    ensures
        exists|r: int|
            0 <= r < cell_list(occ, c, n).len() && #[trigger] cell_list(occ, c, n)[r] == (
                occ[q].0,
                occ[q].1,
            ),
    decreases n,
{
    let prev = cell_list(occ, c, n - 1);
    let cur = cell_list(occ, c, n);
    if q == n - 1 {
        assert(cur == prev.push((occ[n - 1].0, occ[n - 1].1)));
        assert(cur[prev.len() as int] == (occ[q].0, occ[q].1));
    } else {
        lemma_cell_list_complete(occ, c, n - 1, q);
        let r = choose|r: int| 0 <= r < prev.len() && #[trigger] prev[r] == (occ[q].0, occ[q].1);
        if occ[n - 1].2 == c {
            assert(cur == prev.push((occ[n - 1].0, occ[n - 1].1)));
            assert(cur[r] == prev[r]);
        } else {
            assert(cur == prev);
            assert(cur[r] == prev[r]);
        }
    }
}

/// A round settles every cell it sees: each leaves at most one living snake on it,
/// and snakes only shorten or die.
proof fn lemma_round_prefix_lone(m0: Seq<SnakeModel>, p: int)
    requires
        0 <= p <= occupancy(m0).len(),
    ensures
        shrunk(m0, round_prefix(m0, occupancy(m0), p).0),
        forall|q: int|
            0 <= q < p ==> lone_on(
                round_prefix(m0, occupancy(m0), p).0,
                (#[trigger] occupancy(m0)[q]).2,
            ),
    decreases p,
{
    let occ = occupancy(m0);
    if p == 0 {
        lemma_shrunk_refl(m0);
    } else {
        lemma_round_prefix_lone(m0, p - 1);
        let prev = round_prefix(m0, occ, p - 1).0;
        let cur = round_prefix(m0, occ, p).0;
        let c = occ[p - 1].2;
        if first_seen(occ, p - 1) {
            let es = cell_list(occ, c, occ.len() as int);
            lemma_occupancy_upto_valid(m0, m0.len() as int);
            lemma_cell_list_covers(m0, occ, c, occ.len() as int);
            assert forall|x: int, j: int| #[trigger] covers(m0, (x, j), c) implies exists|q: int|
                0 <= q < es.len() && #[trigger] es[q] == (x, j) by {
                lemma_occupancy_upto_complete(m0, m0.len() as int, x, j);
                let k = choose|k: int| 0 <= k < occ.len() && #[trigger] occ[k] == (x, j, m0[x].body[j]);
                lemma_cell_list_complete(occ, c, occ.len() as int, k);
            }
            lemma_settle_lone(m0, prev, es, c);
            assert(cur == settle(prev, es).0);
            lemma_shrunk_trans(m0, prev, cur);
            assert forall|q: int| 0 <= q < p implies lone_on(cur, (#[trigger] occ[q]).2) by {
                if q < p - 1 {
                    lemma_shrunk_lone(prev, cur, occ[q].2);
                }
            }
        } else {
            assert(cur == prev);
            let q1 = choose|q: int| 0 <= q < p - 1 && !((#[trigger] occ[q]).2 != occ[p - 1].2);
            assert(lone_on(prev, occ[q1].2));
        }
    }
}

/// After one round no two living snakes share a cell.
proof fn lemma_round_apart(m0: Seq<SnakeModel>)
    ensures
        apart(overlap_round(m0).0),
{
    let occ = occupancy(m0);
    lemma_round_prefix_lone(m0, occ.len() as int);
    let m1 = overlap_round(m0).0;
    assert forall|a: int, b: int, i: int, j: int|
        0 <= a < m1.len() && 0 <= b < m1.len() && a != b && m1[a].alive && m1[b].alive && 0 <= i
            < m1[a].body.len() && 0 <= j < m1[b].body.len() implies #[trigger] m1[a].body[i]
        != #[trigger] m1[b].body[j] by {
        if m1[a].body[i] == m1[b].body[j] {
            let c = m1[a].body[i];
            assert(covers(m1, (a, i), c));
            assert(covers(m1, (b, j), c));
            lemma_shrunk_covers(m0, m1, (a, i), c);
            lemma_occupancy_upto_complete(m0, m0.len() as int, a, i);
            let k = choose|k: int| 0 <= k < occ.len() && #[trigger] occ[k] == (a, i, m0[a].body[i]);
            assert(lone_on(m1, occ[k].2));
        }
    }
}

/// After shared cells are settled, no two living snakes share a cell; the rounds
/// after the first find nothing to settle.
pub proof fn law_overlaps_leave_apart(m: Seq<SnakeModel>)
    ensures
        apart(after_overlaps(m)),
        after_overlaps(m) == overlap_round(m).0,
{
    lemma_round_apart(m);
    let m1 = overlap_round(m).0;
    law_overlaps_idle_when_apart(m1);
    assert(overlap_rounds(m1, 0) == m1);
    assert(overlap_rounds(m1, 1) == m1);
    assert(overlap_rounds(m1, 2) == m1);
}

/// The occupancy of the first `si` snakes names only those snakes.
pub proof fn lemma_occupancy_upto_below(m: Seq<SnakeModel>, si: int)
    requires
        0 <= si <= m.len(),
    ensures
        forall|q: int| 0 <= q < occupancy_upto(m, si).len() ==> (#[trigger] occupancy_upto(m, si)[q]).0 < si,
    decreases si,
{
    if si > 0 {
        lemma_occupancy_upto_below(m, si - 1);
        let a = occupancy_upto(m, si - 1);
        let len = m[si - 1].body.len() as int;
        let b = if m[si - 1].alive {
            seg_entries(m, si - 1, len)
        } else {
            Seq::empty()
        };
        lemma_seg_entries_exact(m, si - 1, len);
        assert(occupancy_upto(m, si) == a + b);
        assert forall|q: int| 0 <= q < (a + b).len() implies (#[trigger] (a + b)[q]).0 < si by {
            if q < a.len() {
                assert((a + b)[q] == a[q]);
            } else {
                assert((a + b)[q] == b[q - a.len()]);
            }
        }
    }
}

proof fn lemma_best_entry_max(m: Seq<SnakeModel>, es: Seq<(int, int)>, heads: bool, n: int)
    requires
        0 <= n <= es.len(),
    ensures
        best_entry(m, es, heads, n) matches Some(b) ==> 0 <= b < n && entry_alive(m, es[b])
            && forall|q: int|
            0 <= q < n && entry_alive(m, #[trigger] es[q]) ==> key_ge(
                claim_key(m, es[b], heads),
                claim_key(m, es[q], heads),
            ),
    decreases n,
{
    if n > 0 {
        lemma_best_entry_max(m, es, heads, n - 1);
        let prev = best_entry(m, es, heads, n - 1);
        let kn = claim_key(m, es[n - 1], heads);
        if entry_alive(m, es[n - 1]) {
            match prev {
                None => {
                    assert forall|q: int| 0 <= q < n && entry_alive(m, #[trigger] es[q]) implies key_ge(
                        kn,
                        claim_key(m, es[q], heads),
                    ) by {
                        if q < n - 1 {
                            lemma_best_entry_some(m, es, heads, n - 1, q);
                        }
                    }
                },
                Some(b) => {
                    let kb = claim_key(m, es[b], heads);
                    if key_ge(kn, kb) {
                        assert forall|q: int| 0 <= q < n && entry_alive(m, #[trigger] es[q]) implies key_ge(
                            kn,
                            claim_key(m, es[q], heads),
                        ) by {
                            if q < n - 1 {
                                assert(key_ge(kb, claim_key(m, es[q], heads)));
                            }
                        }
                    } else {
                        assert(key_ge(kb, kn));
                    }
                },
            }
        }
    }
}

/// The owner's body and life are untouched by its claims.
proof fn lemma_claims_keep_owner(m: Seq<SnakeModel>, es: Seq<(int, int)>, owner: int, n: int)
    requires
        0 <= n <= es.len(),
        pairs_ok(es, m.len() as int),
        0 <= owner < m.len(),
    ensures
        claims(m, es, owner, n)[owner].body == m[owner].body,
        claims(m, es, owner, n)[owner].alive == m[owner].alive,
    decreases n,
{
    if n > 0 {
        lemma_claims_keep_owner(m, es, owner, n - 1);
        lemma_claims_len(m, es, owner, n - 1);
        assert(0 <= es[n - 1].0 < m.len());
    }
}

/// A living snake other than the owner with a segment on the cell is, after the
/// owner's claims, dead or cut short of that segment.
proof fn lemma_claims_cut_others(m: Seq<SnakeModel>, es: Seq<(int, int)>, o: int, c: Point, q: int)
    requires
        pairs_ok(es, m.len() as int),
        0 <= o < m.len(),
        0 <= q < es.len(),
        covers(m, es[q], c),
        es[q].0 != o,
    ensures
        !claims(m, es, o, es.len() as int)[es[q].0].alive || claims(
            m,
            es,
            o,
            es.len() as int,
        )[es[q].0].body.len() <= es[q].1,
{
    let n = es.len() as int;
    let v = es[q].0;
    let r = claims(m, es, o, n);
    let mq = claims(m, es, o, q);
    lemma_claims_shrink(m, es, o, 0, q);
    lemma_claims_shrink(m, es, o, q + 1, n);
    lemma_claims_len(m, es, o, q);
    lemma_claim_shrinks(mq, es[q], o);
    assert(claims(m, es, o, q + 1) == claim(mq, es[q], o));
    let mq1 = claims(m, es, o, q + 1);
    if r[v].alive && r[v].body.len() > es[q].1 {
        assert(mq1[v].alive);
        assert(mq[v].alive);
        assert(mq[v].body.len() >= mq1[v].body.len());
    }
}

/// What the owner's claims leave: the owner whole and alive, every other snake on
/// the cell dead or cut short of its segment there.
proof fn lemma_owner_claims(m: Seq<SnakeModel>, es: Seq<(int, int)>, c: Point, b: int)
    requires
        pairs_ok(es, m.len() as int),
        0 <= b < es.len(),
        0 <= es[b].0 < m.len(),
        m[es[b].0].alive,
        forall|q: int| 0 <= q < es.len() ==> covers(m, #[trigger] es[q], c),
    ensures
        ({
            let o = es[b].0;
            let r = claims(m, es, o, es.len() as int);
            &&& r[o].body == m[o].body
            &&& r[o].alive
            &&& forall|q: int|
                0 <= q < es.len() && (#[trigger] es[q]).0 != o ==> !r[es[q].0].alive
                    || r[es[q].0].body.len() <= es[q].1
        }),
{
    let o = es[b].0;
    let n = es.len() as int;
    let r = claims(m, es, o, n);
    lemma_claims_keep_owner(m, es, o, n);
    assert forall|q: int| 0 <= q < es.len() && (#[trigger] es[q]).0 != o implies !r[es[q].0].alive
        || r[es[q].0].body.len() <= es[q].1 by {
        lemma_claims_cut_others(m, es, o, c, q);
    }
}

/// Where two or more living snakes cover one cell with body segments and no head is
/// there, a longest of them (snake `es[b].0` for the returned `b`) owns the cell: it
/// keeps its body and stays alive, and every other snake on the cell is left dead or
/// cut short of the segment it had there.
/// The strongest claim on a contested cell without a head belongs to a longest snake.
proof fn lemma_owner_is_longest(m: Seq<SnakeModel>, es: Seq<(int, int)>, c: Point) -> (b: int)
    requires
        forall|q: int| 0 <= q < es.len() ==> covers(m, #[trigger] es[q], c),
        contested(m, es),
        !head_in(m, es, es.len() as int),
    ensures
        0 <= b < es.len(),
        best_entry(m, es, head_in(m, es, es.len() as int), es.len() as int) == Some(b),
        m[es[b].0].alive,
        pairs_ok(es, m.len() as int),
        0 <= es[b].0 < m.len(),
        forall|q: int| 0 <= q < es.len() ==> m[(#[trigger] es[q]).0].body.len() <= m[es[b].0].body.len(),
{
    let n = es.len() as int;
    assert forall|q: int| 0 <= q < es.len() implies 0 <= (#[trigger] es[q]).0 < m.len()
        && es[q].1 >= 0 by {
        assert(covers(m, es[q], c));
    }
    lemma_first_alive_living(m, es, n);
    let q0 = choose|q: int|
        0 <= q < n && entry_alive(m, #[trigger] es[q]) && es[q].0 == first_alive(m, es, n)->0;
    lemma_best_entry_some(m, es, false, n, q0);
    lemma_best_entry_max(m, es, false, n);
    let b = best_entry(m, es, false, n)->0;
    assert forall|q: int| 0 <= q < es.len() implies m[(#[trigger] es[q]).0].body.len()
        <= m[es[b].0].body.len() by {
        assert(covers(m, es[q], c));
        assert(key_ge(claim_key(m, es[b], false), claim_key(m, es[q], false)));
    }
    b
}

pub proof fn law_settle_longest_owns(m: Seq<SnakeModel>, es: Seq<(int, int)>, c: Point) -> (b: int)
    requires
        forall|q: int| 0 <= q < es.len() ==> covers(m, #[trigger] es[q], c),
        contested(m, es),
        !head_in(m, es, es.len() as int),
    ensures
        0 <= b < es.len(),
        m[es[b].0].alive,
        forall|q: int| 0 <= q < es.len() ==> m[(#[trigger] es[q]).0].body.len() <= m[es[b].0].body.len(),
        settle(m, es).0[es[b].0].body == m[es[b].0].body,
        settle(m, es).0[es[b].0].alive,
        forall|q: int|
            0 <= q < es.len() && (#[trigger] es[q]).0 != es[b].0 ==> !settle(m, es).0[es[q].0].alive
                || settle(m, es).0[es[q].0].body.len() <= es[q].1,
{
    let b = lemma_owner_is_longest(m, es, c);
    lemma_owner_claims(m, es, c, b);
    assert(settle(m, es).0 == claims(m, es, es[b].0, es.len() as int));
    b
}

} // verus!
