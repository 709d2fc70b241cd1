use crate::game::Game;
use crate::overlaps::{occupancy, occupancy_upto, seg_entries};
use crate::types::{in_bounds, on_board, Color, Point, SnakeModel, HEIGHT, WIDTH};
use vstd::prelude::*;

verus! {

/// What is drawn on one cell of the board.
#[derive(Clone, Copy, PartialEq, Eq, Structural, Debug)]
pub enum BoardCell {
    Empty,
    Fruit,
    Head(Color),
    Body(Color),
}

/// Number of cells of the board.
pub const BOARD_CELLS: usize = 960;

/// Position of cell `p` in the row-by-row list of board cells.
pub open spec fn cell_index(p: Point) -> int {
    p.y * WIDTH + p.x
}

/// The (snake, segment) of the last entry of `es` on cell `p`.
pub open spec fn last_cover(es: Seq<(int, int, Point)>, p: Point) -> Option<(int, int)>
    decreases es.len(),
{
    if es.len() == 0 {
        None
    } else if es.last().2 == p {
        Some((es.last().0, es.last().1))
    } else {
        last_cover(es.drop_last(), p)
    }
}

/// The drawing of cell `p` when the snake parts `es` are drawn, in order, over the fruit:
/// the last part drawn there shows (a head or a body segment in its snake's colour);
/// with none, a fruit shows if there is one, else nothing.
pub open spec fn drawn(m: Seq<SnakeModel>, fruits: Seq<Point>, es: Seq<(int, int, Point)>, p: Point) -> BoardCell {
    match last_cover(es, p) {
        Some((si, seg)) => if seg == 0 {
            BoardCell::Head(m[si].color)
        } else {
            BoardCell::Body(m[si].color)
        },
        None => if fruits.contains(p) {
            BoardCell::Fruit
        } else {
            BoardCell::Empty
        },
    }
}

proof fn lemma_cell_index(p: Point, q: Point)
    requires
        on_board(p),
        on_board(q),
    ensures
        0 <= cell_index(p) < BOARD_CELLS,
        cell_index(p) == cell_index(q) ==> p == q,
{
}

proof fn lemma_last_cover_push(es: Seq<(int, int, Point)>, x: (int, int, Point), p: Point)
    ensures
        last_cover(es.push(x), p) == if x.2 == p {
            Some((x.0, x.1))
        } else {
            last_cover(es, p)
        },
{
    assert(es.push(x).drop_last() =~= es);
}

impl Game {
    /// The board as drawn, row by row: fruit first, then the living snakes in order,
    /// each from head to tail, later drawings covering earlier ones.
    pub fn board_cells(&self) -> (r: Vec<BoardCell>)
        ensures
            r@.len() == BOARD_CELLS,
            forall|p: Point|
                on_board(p) ==> r@[#[trigger] cell_index(p)] == drawn(
                    self.snake_models(),
                    self.fruits@,
                    occupancy(self.snake_models()),
                    p,
                ),
    {
        let ghost m = self.snake_models();
        let ghost fr = self.fruits@;
        let mut grid: Vec<BoardCell> = Vec::new();
        let mut c: usize = 0;
        while c < BOARD_CELLS
            invariant
                c <= BOARD_CELLS,
                grid@.len() == c,
                forall|q: int| 0 <= q < c ==> grid@[q] == BoardCell::Empty,
            decreases BOARD_CELLS - c,
        {
            grid.push(BoardCell::Empty);
            c += 1;
        }
        let mut f: usize = 0;
        while f < self.fruits.len()
            invariant
                fr == self.fruits@,
                f <= fr.len(),
                grid@.len() == BOARD_CELLS,
                forall|p: Point|
                    on_board(p) ==> grid@[#[trigger] cell_index(p)] == if fr.take(f as int).contains(p) {
                        BoardCell::Fruit
                    } else {
                        BoardCell::Empty
                    },
            decreases fr.len() - f,
        {
            let p = self.fruits[f];
            if in_bounds(p) {
                let idx = (p.y * WIDTH + p.x) as usize;
                proof {
                    lemma_cell_index(p, p);
                }
                grid.set(idx, BoardCell::Fruit);
            }
            proof {
                assert forall|q: Point| on_board(q) implies grid@[#[trigger] cell_index(q)] == if fr.take(
                    f + 1,
                ).contains(q) {
                    BoardCell::Fruit
                } else {
                    BoardCell::Empty
                } by {
                    lemma_cell_index(q, q);
                    if on_board(p) {
                        lemma_cell_index(p, q);
                    }
                    assert(fr.take(f + 1) =~= fr.take(f as int).push(p));
                    if fr.take(f as int).contains(q) {
                        let w = choose|w: int| 0 <= w < f && fr.take(f as int)[w] == q;
                        assert(fr.take(f + 1)[w] == q);
                    }
                    if q == p {
                        assert(fr.take(f + 1)[f as int] == q);
                    }
                }
            }
            f += 1;
        }
        assert(fr.take(fr.len() as int) =~= fr);
        let n = self.snakes.len();
        let mut si: usize = 0;
        assert(occupancy_upto(m, 0) =~= Seq::<(int, int, Point)>::empty());
        while si < n
            invariant
                n == self.snakes@.len() == m.len(),
                m == self.snake_models(),
                fr == self.fruits@,
                si <= n,
                grid@.len() == BOARD_CELLS,
                forall|p: Point|
                    on_board(p) ==> grid@[#[trigger] cell_index(p)] == drawn(
                        m,
                        fr,
                        occupancy_upto(m, si as int),
                        p,
                    ),
            decreases n - si,
        {
            assert(m[si as int] == self.snakes@[si as int]@);
            if self.snakes[si].alive {
                let len = self.snakes[si].body.len();
                let color = self.snakes[si].color;
                let mut seg: usize = 0;
                assert(occupancy_upto(m, si as int) + seg_entries(m, si as int, 0) =~= occupancy_upto(
                    m,
                    si as int,
                ));
                while seg < len
                    invariant
                        n == self.snakes@.len() == m.len(),
                        m == self.snake_models(),
                        fr == self.fruits@,
                        si < n,
                        len == m[si as int].body.len(),
                        color == m[si as int].color,
                        seg <= len,
                        grid@.len() == BOARD_CELLS,
                        forall|p: Point|
                            on_board(p) ==> grid@[#[trigger] cell_index(p)] == drawn(
                                m,
                                fr,
                                occupancy_upto(m, si as int) + seg_entries(m, si as int, seg as int),
                                p,
                            ),
                    decreases len - seg,
                {
                    let cell = self.snakes[si].body[seg];
                    let ghost cur = occupancy_upto(m, si as int) + seg_entries(m, si as int, seg as int);
                    let ghost x = (si as int, seg as int, cell);
                    proof {
                        assert(occupancy_upto(m, si as int) + seg_entries(m, si as int, seg + 1)
                            =~= cur.push(x));
                    }
                    if in_bounds(cell) {
                        let idx = (cell.y * WIDTH + cell.x) as usize;
                        proof {
                            lemma_cell_index(cell, cell);
                        }
                        let drawing = if seg == 0 {
                            BoardCell::Head(color)
                        } else {
                            BoardCell::Body(color)
                        };
                        grid.set(idx, drawing);
                    }
                    proof {
                        assert forall|q: Point| on_board(q) implies grid@[#[trigger] cell_index(q)]
                            == drawn(m, fr, cur.push(x), q) by {
                            lemma_last_cover_push(cur, x, q);
                            lemma_cell_index(q, q);
                            if on_board(cell) {
                                lemma_cell_index(cell, q);
                            }
                        }
                    }
                    seg += 1;
                }
                assert(occupancy_upto(m, si + 1) == occupancy_upto(m, si as int) + seg_entries(
                    m,
                    si as int,
                    len as int,
                ));
            } else {
                assert(occupancy_upto(m, si + 1) =~= occupancy_upto(m, si as int));
            }
            si += 1;
        }
        grid
    }
}

} // verus!
