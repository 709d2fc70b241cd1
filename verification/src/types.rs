use std::collections::VecDeque;
use vstd::prelude::*;

verus! {

/// Number of columns of the board.
pub const WIDTH: i32 = 48;

/// Number of rows of the board.
pub const HEIGHT: i32 = 20;

/// Largest number of bots that a round spawns.
pub const MAX_BOTS: usize = 6;

/// A cell of the board (or a position just outside it).
#[derive(Clone, Copy, PartialEq, Eq, Structural, Hash, Debug)]
pub struct Point {
    pub x: i32,
    pub y: i32,
}

/// One of the four moves on the grid.
#[derive(Clone, Copy, PartialEq, Eq, Structural, Debug)]
pub enum Direction {
    Up,
    Down,
    Left,
    Right,
}

/// Colours that snakes and fruit are drawn in.
#[derive(Clone, Copy, PartialEq, Eq, Structural, Debug)]
pub enum Color {
    Red,
    Green,
    Magenta,
    Blue,
    DarkYellow,
    DarkCyan,
    Cyan,
    Yellow,
}

/// Step of a direction along the x axis.
pub open spec fn delta_x(d: Direction) -> int {
    match d {
        Direction::Up => 0,
        Direction::Down => 0,
        Direction::Left => -1,
        Direction::Right => 1,
    }
}

/// Step of a direction along the y axis (rows grow downwards).
pub open spec fn delta_y(d: Direction) -> int {
    match d {
        Direction::Up => -1,
        Direction::Down => 1,
        Direction::Left => 0,
        Direction::Right => 0,
    }
}

/// The direction that points the other way.
pub open spec fn reverse_of(d: Direction) -> Direction {
    match d {
        Direction::Up => Direction::Down,
        Direction::Down => Direction::Up,
        Direction::Left => Direction::Right,
        Direction::Right => Direction::Left,
    }
}

/// An integer that an `i32` can hold.
pub open spec fn fits_i32(v: int) -> bool {
    i32::MIN <= v <= i32::MAX
}

impl Point {
    /// The neighbouring cell does not leave the range of `i32`.
    pub open spec fn can_step(self, d: Direction) -> bool {
        fits_i32(self.x + delta_x(d)) && fits_i32(self.y + delta_y(d))
    }

    /// The neighbouring cell in direction `d`.
    pub open spec fn stepped(self, d: Direction) -> Point {
        Point { x: (self.x + delta_x(d)) as i32, y: (self.y + delta_y(d)) as i32 }
    }

    /// The cell one step away in direction `d`.
    pub fn add(self, d: Direction) -> (r: Point)
        requires
            self.can_step(d),
        ensures
            r == self.stepped(d),
            r.x == self.x + delta_x(d),
            r.y == self.y + delta_y(d),
    {
        let (dx, dy) = d.delta();
        Point { x: self.x + dx, y: self.y + dy }
    }
}

impl Direction {
    /// The unit step `(dx, dy)` of this direction.
    pub fn delta(self) -> (r: (i32, i32))
        ensures
            r.0 == delta_x(self),
            r.1 == delta_y(self),
    {
        match self {
            Direction::Up => (0, -1),
            Direction::Down => (0, 1),
            Direction::Left => (-1, 0),
            Direction::Right => (1, 0),
        }
    }

    /// The direction pointing the other way.
    pub fn opposite(self) -> (r: Direction)
        ensures
            r == reverse_of(self),
    {
        match self {
            Direction::Up => Direction::Down,
            Direction::Down => Direction::Up,
            Direction::Left => Direction::Right,
            Direction::Right => Direction::Left,
        }
    }
}

/// The snake with a turn queued towards `turn`, unless that reverses its direction.
pub open spec fn with_turn(snake: SnakeModel, turn: Direction) -> SnakeModel {
    if turn != reverse_of(snake.dir) {
        SnakeModel { next_dir: turn, ..snake }
    } else {
        snake
    }
}

/// What a snake is, apart from the moment it was eliminated at.
pub struct SnakeModel {
    pub id: usize,
    pub body: Seq<Point>,
    pub dir: Direction,
    pub next_dir: Direction,
    pub pending_growth: nat,
    pub is_player: bool,
    pub alive: bool,
    pub color: Color,
}

/// A snake: its body runs from the head (index 0) to the tail.
pub struct Snake {
    pub id: usize,
    pub body: VecDeque<Point>,
    pub dir: Direction,
    pub next_dir: Direction,
    pub pending_growth: usize,
    pub is_player: bool,
    pub alive: bool,
    pub eliminated_at: Option<u64>,
    pub color: Color,
}

impl View for Snake {
    type V = SnakeModel;

    open spec fn view(&self) -> SnakeModel {
        SnakeModel {
            id: self.id,
            body: self.body@,
            dir: self.dir,
            next_dir: self.next_dir,
            pending_growth: self.pending_growth as nat,
            is_player: self.is_player,
            alive: self.alive,
            color: self.color,
        }
    }
}

impl SnakeModel {
    /// The head cell, if the body is not empty.
    pub open spec fn head(self) -> Option<Point> {
        if self.body.len() > 0 {
            Some(self.body[0])
        } else {
            None
        }
    }

    /// The head of a living snake, if it has one.
    pub open spec fn live_head(self) -> Option<Point> {
        if self.alive {
            self.head()
        } else {
            None
        }
    }

    /// A snake with the given liveness and pending growth, all else kept.
    pub open spec fn with_state(self, alive: bool, pending_growth: nat) -> SnakeModel {
        SnakeModel { alive, pending_growth, ..self }
    }

    /// The snake after one move: a living snake takes its queued direction and,
    /// if it has a head, gains a new head one cell ahead; the tail cell is dropped
    /// unless growth is pending, in which case one unit of growth is used up.
    pub open spec fn advanced(self) -> SnakeModel {
        if !self.alive {
            self
        } else if self.body.len() == 0 {
            SnakeModel { dir: self.next_dir, ..self }
        } else {
            let new_head = self.body[0].stepped(self.next_dir);
            SnakeModel {
                dir: self.next_dir,
                body: if self.pending_growth > 0 {
                    seq![new_head] + self.body
                } else {
                    seq![new_head] + self.body.drop_last()
                },
                pending_growth: if self.pending_growth > 0 {
                    (self.pending_growth - 1) as nat
                } else {
                    0
                },
                ..self
            }
        }
    }

    /// Moving does not take the head out of the range of `i32`.
    pub open spec fn can_advance(self) -> bool {
        self.live_head() matches Some(h) ==> h.can_step(self.next_dir)
    }

    /// A snake with the given body, all else kept.
    pub open spec fn with_body(self, body: Seq<Point>) -> SnakeModel {
        SnakeModel { body, ..self }
    }
}

impl Snake {
    /// Number of cells the snake occupies.
    pub fn len(&self) -> (r: usize)
        ensures
            r == self.body@.len(),
    {
        self.body.len()
    }

    /// The head cell, or `None` for an empty body.
    pub fn head(&self) -> (r: Option<Point>)
        ensures
            r == self@.head(),
    {
        if self.body.len() > 0 {
            Some(self.body[0])
        } else {
            None
        }
    }

    /// Queues a turn, unless it would reverse the current direction.
    pub fn set_direction(&mut self, new_dir: Direction)
        ensures
            final(self)@ == with_turn(old(self)@, new_dir),
            final(self).eliminated_at == old(self).eliminated_at,
    {
        if new_dir != self.dir.opposite() {
            self.next_dir = new_dir;
        }
    }

    /// Advances a living snake by one cell in its queued direction;
    /// the tail follows unless growth is pending, which is then used up by one.
    pub fn move_forward(&mut self)
        requires
            old(self)@.can_advance(),
        ensures
            final(self).eliminated_at == old(self).eliminated_at,
            final(self)@ == old(self)@.advanced(),
    {
        if !self.alive {
            return ;
        }
        self.dir = self.next_dir;
        if let Some(head) = self.head() {
            self.body.push_front(head.add(self.dir));
            if self.pending_growth > 0 {
                self.pending_growth -= 1;
            } else {
                let _ = self.body.pop_back();
                assert(self.body@ =~= seq![head.stepped(self.dir)] + old(self).body@.drop_last());
            }
        }
    }
}

/// The difficulty levels of a round.
#[derive(Clone, Copy, PartialEq, Eq, Structural, Debug)]
pub enum Difficulty {
    Easy,
    Normal,
    Hard,
}

/// Parameters of a round. The bots' aggression is kept in hundredths.
#[derive(Clone, Copy)]
pub struct GameSettings {
    pub difficulty: Difficulty,
    pub fruit_count: usize,
    pub bot_count: usize,
    pub tick_ms: u64,
    pub game_time_seconds: u64,
    pub bot_aggression_percent: u32,
}

/// The parameters that each difficulty level plays with.
pub open spec fn settings_for(d: Difficulty) -> GameSettings {
    match d {
        Difficulty::Easy => GameSettings {
            difficulty: d,
            fruit_count: 10,
            bot_count: 2,
            tick_ms: 145,
            game_time_seconds: 75,
            bot_aggression_percent: 55,
        },
        Difficulty::Normal => GameSettings {
            difficulty: d,
            fruit_count: 8,
            bot_count: 3,
            tick_ms: 120,
            game_time_seconds: 90,
            bot_aggression_percent: 85,
        },
        Difficulty::Hard => GameSettings {
            difficulty: d,
            fruit_count: 6,
            bot_count: 5,
            tick_ms: 95,
            game_time_seconds: 100,
            bot_aggression_percent: 125,
        },
    }
}

impl GameSettings {
    /// Name of the difficulty level, as shown to the player.
    pub fn label(self) -> (r: &'static str)
        ensures
            self.difficulty == Difficulty::Easy ==> r@ == "Easy"@,
            self.difficulty == Difficulty::Normal ==> r@ == "Normal"@,
            self.difficulty == Difficulty::Hard ==> r@ == "Hard"@,
    {
        match self.difficulty {
            Difficulty::Easy => "Easy",
            Difficulty::Normal => "Normal",
            Difficulty::Hard => "Hard",
        }
    }
}

impl Difficulty {
    /// The parameters of a round at this level.
    pub fn settings(self) -> (r: GameSettings)
        ensures
            r == settings_for(self),
    {
        match self {
            Difficulty::Easy => GameSettings {
                difficulty: self,
                fruit_count: 10,
                bot_count: 2,
                tick_ms: 145,
                game_time_seconds: 75,
                bot_aggression_percent: 55,
            },
            Difficulty::Normal => GameSettings {
                difficulty: self,
                fruit_count: 8,
                bot_count: 3,
                tick_ms: 120,
                game_time_seconds: 90,
                bot_aggression_percent: 85,
            },
            Difficulty::Hard => GameSettings {
                difficulty: self,
                fruit_count: 6,
                bot_count: 5,
                tick_ms: 95,
                game_time_seconds: 100,
                bot_aggression_percent: 125,
            },
        }
    }
}

/// The cell lies on the board.
pub open spec fn on_board(p: Point) -> bool {
    0 <= p.x < WIDTH && 0 <= p.y < HEIGHT
}

/// Whether a cell lies on the board.
pub fn in_bounds(p: Point) -> (r: bool)
    ensures
        r == on_board(p),
{
    p.x >= 0 && p.x < WIDTH && p.y >= 0 && p.y < HEIGHT
}

/// Absolute value of an integer.
pub open spec fn abs_int(v: int) -> int {
    if v < 0 {
        -v
    } else {
        v
    }
}

/// Taxicab distance between two cells.
pub open spec fn taxicab(a: Point, b: Point) -> int {
    abs_int(a.x - b.x) + abs_int(a.y - b.y)
}

/// Taxicab distance between two cells.
pub fn manhattan(a: Point, b: Point) -> (r: i32)
    requires
        taxicab(a, b) <= i32::MAX,
    ensures
        r == taxicab(a, b),
{
    let dx: i32 = if a.x >= b.x { a.x - b.x } else { b.x - a.x };
    let dy: i32 = if a.y >= b.y { a.y - b.y } else { b.y - a.y };
    dx + dy
}

/// A new living snake of three cells, head at `start`, laid out behind it.
pub fn make_snake(id: usize, start: Point, dir: Direction, is_player: bool, color: Color) -> (r:
    Snake)
    requires
        start.can_step(reverse_of(dir)),
        start.stepped(reverse_of(dir)).can_step(reverse_of(dir)),
    ensures
        r@ == (SnakeModel {
            id,
            body: seq![
                start,
                start.stepped(reverse_of(dir)),
                start.stepped(reverse_of(dir)).stepped(reverse_of(dir)),
            ],
            dir,
            next_dir: dir,
            pending_growth: 0,
            is_player,
            alive: true,
            color,
        }),
        r.eliminated_at == None::<u64>,
{
    let mut body: VecDeque<Point> = VecDeque::new();
    body.push_back(start);
    body.push_back(start.add(dir.opposite()));
    body.push_back(start.add(dir.opposite()).add(dir.opposite()));
    assert(body@ =~= seq![
        start,
        start.stepped(reverse_of(dir)),
        start.stepped(reverse_of(dir)).stepped(reverse_of(dir)),
    ]);
    Snake {
        id,
        body,
        dir,
        next_dir: dir,
        pending_growth: 0,
        is_player,
        alive: true,
        eliminated_at: None,
        color,
    }
}

/// Colour of the bot with the given index; the palette repeats every six bots.
pub open spec fn bot_palette(index: nat) -> Color {
    let k = index % 6;
    if k == 0 {
        Color::Red
    } else if k == 1 {
        Color::Green
    } else if k == 2 {
        Color::Magenta
    } else if k == 3 {
        Color::Blue
    } else if k == 4 {
        Color::DarkYellow
    } else {
        Color::DarkCyan
    }
}

/// Colour of the bot with the given index.
pub fn bot_color(index: usize) -> (r: Color)
    ensures
        r == bot_palette(index as nat),
{
    match index % 6 {
        0 => Color::Red,
        1 => Color::Green,
        2 => Color::Magenta,
        3 => Color::Blue,
        4 => Color::DarkYellow,
        _ => Color::DarkCyan,
    }
}

} // verus!
