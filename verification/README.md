# snake_io

A multi-snake arena game: the player and a few bots move on a 48 by 20 grid, eat
fruit to grow, bite each other's bodies, and fight over cells where their heads meet.
A round ends on a quit, when the clock runs out, or when at most one snake is left.

The rules are a library verified with Verus:

- `types`: points, directions, snakes and their mathematical models, difficulties.
- `game`: the state of a round, its clock and the player's snake.
- `collisions`, `overlaps`: meetings of heads, walls and own bodies, bites, and cells
  that several snakes claim.
- `world`: the starting line-up, movement, fruit and the high score.
- `tick`: one whole tick, with the laws that hold across it (mass, dead snakes,
  heads on the board).
- `ai`: the integer parts of the bots' steering.
- `standings`, `board`: the final ranking and the picture of the board.
- `session`: the screens, the keys and the progress kept between rounds.
- `audio`: which sounds a frame starts or stops: the ambience of the round's tier
  and the hit when the player's snake dies.
- `laws`: properties of the rules stated over the models.
- `outside`: the calls into `rand` and the standard clock, with what is assumed of them.

`app/` is a terminal front end built on `crossterm`: it reads keys, keeps the tick
clock, scores the bots' moves in floating point and draws the board. It has no sound
files: it shows the ambience tier in the header and rings the terminal bell for the
hit, unless reduced audio is toggled on with V. There are no pickup, near-miss or combo
sounds, since the game keeps no such counters.

The game has no pausing, sprint bursts, fruit magnet, quests, daily seed, combos,
near misses, bot personalities or record of how the player died. The hint shown after
a round therefore tells apart a quit, a round that ran out of time, and any other end.
The high score is the greatest length the player's snake reached in the round.
