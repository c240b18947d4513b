//! The maze-walking landscape: a genome of turns (0 left, 1 straight,
//! 2 right) steers a walker through a fixed maze.

use vstd::prelude::*;
use crate::fixed::{floor_div_i128, FIXED_ONE, MAX_GENOME_LENGTH};
use crate::helpers::Range;

verus! {

/// A cell of the maze: column `x`, row `y`.
#[derive(Clone, Copy)]
pub struct Point {
    pub x: usize,
    pub y: usize,
}

#[verifier::opaque]
/// Row `y` of the maze (30 rows of 25 cells), the leftmost cell in the most
/// significant of 25 bits; a set bit is an open cell, a clear bit a wall.
pub open spec fn maze_row(y: int) -> u32 {
    if y == 0 {
        0b0000000000000000000000000
    } else if y == 1 {
        0b0011000011111111111011100
    } else if y == 2 {
        0b0111111110101010000000110
    } else if y == 3 {
        0b0100000010101010000000100
    } else if y == 4 {
        0b0111111010101010111011110
    } else if y == 5 {
        0b0100001010101010100000010
    } else if y == 6 {
        0b0100001011111110111110110
    } else if y == 7 {
        0b0100001000000010101010010
    } else if y == 8 {
        0b0111111101101110101010110
    } else if y == 9 {
        0b0000001101101110101010010
    } else if y == 10 {
        0b0111101001101000101010110
    } else if y == 11 {
        0b0100101001101000101011110
    } else if y == 12 {
        0b0100101001001000101000010
    } else if y == 13 {
        0b0100101101011111101011110
    } else if y == 14 {
        0b0100101101000000001010010
    } else if y == 15 {
        0b0110100111000001111010010
    } else if y == 16 {
        0b0110100111111111000010110
    } else if y == 17 {
        0b0010101100000001111010100
    } else if y == 18 {
        0b0110001101111000001011110
    } else if y == 19 {
        0b0111111101111111111010010
    } else if y == 20 {
        0b0000100001101110101011010
    } else if y == 21 {
        0b0111101111101010101001010
    } else if y == 22 {
        0b0110101000101010101011010
    } else if y == 23 {
        0b0110101000101010101010010
    } else if y == 24 {
        0b0110101000101010101011010
    } else if y == 25 {
        0b0110101000101010100001010
    } else if y == 26 {
        0b0000101111111110100111110
    } else if y == 27 {
        0b0111101000000000100100100
    } else if y == 28 {
        0b0110101111111111111111110
    } else {
        0b0000000000000000000000000
    }
}

fn maze_row_of(y: usize) -> (r: u32)
    ensures
        r == maze_row(y as int),
{
    proof {
        reveal(maze_row);
    }
    if y == 0 {
        0b0000000000000000000000000
    } else if y == 1 {
        0b0011000011111111111011100
    } else if y == 2 {
        0b0111111110101010000000110
    } else if y == 3 {
        0b0100000010101010000000100
    } else if y == 4 {
        0b0111111010101010111011110
    } else if y == 5 {
        0b0100001010101010100000010
    } else if y == 6 {
        0b0100001011111110111110110
    } else if y == 7 {
        0b0100001000000010101010010
    } else if y == 8 {
        0b0111111101101110101010110
    } else if y == 9 {
        0b0000001101101110101010010
    } else if y == 10 {
        0b0111101001101000101010110
    } else if y == 11 {
        0b0100101001101000101011110
    } else if y == 12 {
        0b0100101001001000101000010
    } else if y == 13 {
        0b0100101101011111101011110
    } else if y == 14 {
        0b0100101101000000001010010
    } else if y == 15 {
        0b0110100111000001111010010
    } else if y == 16 {
        0b0110100111111111000010110
    } else if y == 17 {
        0b0010101100000001111010100
    } else if y == 18 {
        0b0110001101111000001011110
    } else if y == 19 {
        0b0111111101111111111010010
    } else if y == 20 {
        0b0000100001101110101011010
    } else if y == 21 {
        0b0111101111101010101001010
    } else if y == 22 {
        0b0110101000101010101011010
    } else if y == 23 {
        0b0110101000101010101010010
    } else if y == 24 {
        0b0110101000101010101011010
    } else if y == 25 {
        0b0110101000101010100001010
    } else if y == 26 {
        0b0000101111111110100111110
    } else if y == 27 {
        0b0111101000000000100100100
    } else if y == 28 {
        0b0110101111111111111111110
    } else {
        0b0000000000000000000000000
    }
}

/// The cell at column `x` (below 25) of row `y`: 1 when open, 0 for a wall.
pub open spec fn maze_cell(x: int, y: int) -> u32 {
    (maze_row(y) >> ((24 - x) as u32)) & 1u32
}

/// The state of a walk after some steps.
pub struct WalkState {
    pub x: int,
    pub y: int,
    pub direction: int,
    pub steps: int,
    pub repeated: int,
    pub bad: int,
    pub consecutive: int,
    pub longest: int,
    pub farthest: int,
    pub visited: Seq<(int, int)>,
    pub done: bool,
}

/// The walk before any step: at `from`, facing down (direction 2), with
/// `from` visited.
pub open spec fn walk_start(from: Point) -> WalkState {
    WalkState {
        x: from.x as int,
        y: from.y as int,
        direction: 2,
        steps: 0,
        repeated: 0,
        bad: 0,
        consecutive: 0,
        longest: 0,
        farthest: 0,
        visited: seq![(from.x as int, from.y as int)],
        done: false,
    }
}

/// `|a - b|`.
pub open spec fn distance_1d(a: int, b: int) -> int {
    if a >= b {
        a - b
    } else {
        b - a
    }
}

/// The direction after a turn gene: 0 turns left, 2 right, anything else
/// keeps the direction (0 up, 1 right, 2 down, 3 left).
pub open spec fn turned_direction(direction: int, gene: i32) -> int {
    let turned = if gene == 0 {
        direction - 1
    } else if gene == 2 {
        direction + 1
    } else {
        direction
    };
    if turned < 0 {
        3
    } else if turned > 3 {
        0
    } else {
        turned
    }
}

/// The column after a move in direction `d`, kept within the maze.
pub open spec fn moved_x(x: int, d: int) -> int {
    if d == 1 && x < 24 {
        x + 1
    } else if d == 3 && x > 0 {
        x - 1
    } else {
        x
    }
}

/// The row after a move in direction `d`, kept within the maze.
pub open spec fn moved_y(y: int, d: int) -> int {
    if d == 0 && y > 0 {
        y - 1
    } else if d == 2 && y < 28 {
        y + 1
    } else {
        y
    }
}

/// One step of the walk for a turn gene: turn (0 left, 2 right, anything
/// else straight), move one cell in the new direction (0 up, 1 right, 2 down,
/// 3 left) unless at the border, then: a wall ends the walk as a bad step; an
/// open cell extends the run of consecutive open steps, which a revisited
/// cell resets; reaching `to` ends the walk; a new cell may raise the largest
/// Manhattan distance from `to` seen so far.
pub open spec fn walk_step(s: WalkState, gene: i32, to: Point) -> WalkState {
    if s.done {
        s
    } else {
        let d = turned_direction(s.direction, gene);
        let x = moved_x(s.x, d);
        let y = moved_y(s.y, d);
        let moved = WalkState { x: x, y: y, direction: d, steps: s.steps + 1, ..s };
        if maze_cell(x, y) == 0 {
            WalkState { bad: s.bad + 1, done: true, ..moved }
        } else {
            let consecutive = s.consecutive + 1;
            let longest = if s.longest < consecutive { consecutive } else { s.longest };
            let open = WalkState { consecutive: consecutive, longest: longest, ..moved };
            if s.visited.contains((x, y)) {
                WalkState { repeated: s.repeated + 1, consecutive: 0, ..open }
            } else if x == to.x && y == to.y {
                WalkState { visited: s.visited.push((x, y)), done: true, ..open }
            } else {
                let candidate = distance_1d(to.x as int, x) + distance_1d(to.y as int, y);
                WalkState {
                    visited: s.visited.push((x, y)),
                    farthest: if s.farthest < candidate { candidate } else { s.farthest },
                    ..open
                }
            }
        }
    }
}

/// The walk after the first `n` genes.
pub open spec fn walk_run(genome: Seq<i32>, from: Point, to: Point, n: int) -> WalkState
    decreases n,
{
    if n <= 0 {
        walk_start(from)
    } else {
        walk_step(walk_run(genome, from, to, n - 1), genome[n - 1], to)
    }
}

/// What a walk reports: steps (the genome length, unless the walker ends in
/// the goal's row or column), repeated steps, bad steps (the genome length
/// after a wall, else 0), the longest run of consecutive open steps, and the
/// largest distance from the goal.
pub open spec fn walk_report(genome: Seq<i32>, from: Point, to: Point) -> (int, int, int, int, int) {
    let s = walk_run(genome, from, to, genome.len() as int);
    (
        if s.x != to.x && s.y != to.y { genome.len() as int } else { s.steps },
        s.repeated,
        if s.bad != 0 { genome.len() as int } else { 0 },
        s.longest,
        s.farthest,
    )
}

proof fn lemma_walk_stays_done(genome: Seq<i32>, from: Point, to: Point, i: int, n: int)
    requires
        0 <= i <= n,
        walk_run(genome, from, to, i).done,
    ensures
        walk_run(genome, from, to, n) == walk_run(genome, from, to, i),
    decreases n - i,
{
    if n > i {
        lemma_walk_stays_done(genome, from, to, i, n - 1);
    }
}

/// Whether the walk has visited a cell.
fn was_visited(visited: &Vec<(usize, usize)>, x: usize, y: usize) -> (r: bool)
    ensures
        r == visited@.map_values(|c: (usize, usize)| (c.0 as int, c.1 as int)).contains((x as int, y as int)),
{
    let ghost cells = visited@.map_values(|c: (usize, usize)| (c.0 as int, c.1 as int));
    let mut k: usize = 0;
    while k < visited.len()
        invariant
            cells == visited@.map_values(|c: (usize, usize)| (c.0 as int, c.1 as int)),
            k <= visited@.len(),
            forall|m: int| 0 <= m < k ==> cells[m] != (x as int, y as int),
        decreases visited@.len() - k,
    {
        let (vx, vy) = visited[k];
        if vx == x && vy == y {
            proof {
                assert(cells[k as int] == (x as int, y as int));
            }
            return true;
        }
        k = k + 1;
    }
    false
}

fn turn_and_move(direction: i32, x: usize, y: usize, gene: i32) -> (r: (i32, usize, usize))
    requires
        0 <= direction <= 3,
        x <= 24,
        y <= 29,
    ensures
        r.0 == turned_direction(direction as int, gene),
        r.1 == moved_x(x as int, r.0 as int),
        r.2 == moved_y(y as int, r.0 as int),
        0 <= r.0 <= 3,
        r.1 <= 24,
        r.2 <= 29,
{
    let turned: i32 = if gene == 0 {
        direction - 1
    } else if gene == 2 {
        direction + 1
    } else {
        direction
    };
    let d: i32 = if turned < 0 {
        3
    } else if turned > 3 {
        0
    } else {
        turned
    };
    let nx: usize = if d == 1 && x < 24 {
        x + 1
    } else if d == 3 && x > 0 {
        x - 1
    } else {
        x
    };
    let ny: usize = if d == 0 && y > 0 {
        y - 1
    } else if d == 2 && y < 28 {
        y + 1
    } else {
        y
    };
    (d, nx, ny)
}

/// A walk in progress, on machine integers.
struct Walker {
    x: usize,
    y: usize,
    direction: i32,
    steps: usize,
    repeated: usize,
    bad: usize,
    consecutive: usize,
    longest: usize,
    farthest: usize,
    visited: Vec<(usize, usize)>,
    done: bool,
}

impl Walker {
    spec fn state(&self) -> WalkState {
        WalkState {
            x: self.x as int,
            y: self.y as int,
            direction: self.direction as int,
            steps: self.steps as int,
            repeated: self.repeated as int,
            bad: self.bad as int,
            consecutive: self.consecutive as int,
            longest: self.longest as int,
            farthest: self.farthest as int,
            visited: self.visited@.map_values(|c: (usize, usize)| (c.0 as int, c.1 as int)),
            done: self.done,
        }
    }

    spec fn bounded(&self, i: int) -> bool {
        &&& self.x <= 24
        &&& self.y <= 29
        &&& 0 <= self.direction <= 3
        &&& self.steps <= i
        &&& self.repeated <= i
        &&& self.bad <= i
        &&& self.consecutive <= i
        &&& self.longest <= i
        &&& self.farthest <= 0x1_0000_0000
    }

    #[verifier::rlimit(50)]
    fn advance(&mut self, gene: i32, to: Point, i: usize)
        requires
            old(self).bounded(i as int),
            !old(self).done,
            i < MAX_GENOME_LENGTH,
            to.x <= 0x7fff_ffff,
            to.y <= 0x7fff_ffff,
        ensures
            final(self).state() == walk_step(old(self).state(), gene, to),
            final(self).bounded(i + 1),
    {
        let ghost cells = self.visited@.map_values(|c: (usize, usize)| (c.0 as int, c.1 as int));
        let (d, nx, ny) = turn_and_move(self.direction, self.x, self.y, gene);
        self.direction = d;
        self.x = nx;
        self.y = ny;
        self.steps = self.steps + 1;
        let row = maze_row_of(self.y);
        let cell: u32 = (row >> ((24 - self.x) as u32)) & 1u32;
        if cell == 0 {
            self.bad = self.bad + 1;
            self.done = true;
        } else {
            self.consecutive = self.consecutive + 1;
            if self.longest < self.consecutive {
                self.longest = self.consecutive;
            }
            if was_visited(&self.visited, self.x, self.y) {
                self.repeated = self.repeated + 1;
                self.consecutive = 0;
            } else {
                self.visited.push((self.x, self.y));
                proof {
                    assert(self.visited@.map_values(|c: (usize, usize)| (c.0 as int, c.1 as int)) =~= cells.push(
                        (self.x as int, self.y as int),
                    ));
                }
                if self.x == to.x && self.y == to.y {
                    self.done = true;
                } else {
                    let dx: usize = if to.x >= self.x { to.x - self.x } else { self.x - to.x };
                    let dy: usize = if to.y >= self.y { to.y - self.y } else { self.y - to.y };
                    let candidate = dx + dy;
                    if self.farthest < candidate {
                        self.farthest = candidate;
                    }
                }
            }
        }
    }
}

/// Walks the maze from `from` towards `to`, one turn gene per step (see
/// `walk_step` and `walk_report`). The goal may lie outside the maze, at any
/// coordinates that fit an `i32`.
pub fn walk(genome: &Vec<i32>, from: Point, to: Point) -> (r: (usize, usize, usize, usize, usize))
    requires
        genome@.len() <= MAX_GENOME_LENGTH,
        from.x <= 24,
        from.y <= 29,
        to.x <= 0x7fff_ffff,
        to.y <= 0x7fff_ffff,
    ensures
        (r.0 as int, r.1 as int, r.2 as int, r.3 as int, r.4 as int) == walk_report(genome@, from, to),
{
    let n = genome.len();
    let mut visited: Vec<(usize, usize)> = Vec::new();
    visited.push((from.x, from.y));
    let mut walker = Walker {
        x: from.x,
        y: from.y,
        direction: 2,
        steps: 0,
        repeated: 0,
        bad: 0,
        consecutive: 0,
        longest: 0,
        farthest: 0,
        visited: visited,
        done: false,
    };
    proof {
        assert(walker.state().visited =~= walk_start(from).visited);
    }
    let mut i: usize = 0;
    while i < n && !walker.done
        invariant
            n == genome@.len() <= MAX_GENOME_LENGTH,
            to.x <= 0x7fff_ffff,
            to.y <= 0x7fff_ffff,
            i <= n,
            walker.bounded(i as int),
            walker.state() == walk_run(genome@, from, to, i as int),
        decreases n - i,
    {
        walker.advance(genome[i], to, i);
        i = i + 1;
    }
    proof {
        if walker.done {
            lemma_walk_stays_done(genome@, from, to, i as int, n as int);
        }
    }
    let steps_reported = if walker.x != to.x && walker.y != to.y { n } else { walker.steps };
    let bad_reported = if walker.bad != 0 { n } else { 0 };
    (steps_reported, walker.repeated, bad_reported, walker.longest, walker.farthest)
}

/// Where the maze walk starts.
pub open spec fn path_start() -> Point {
    Point { x: 1, y: 10 }
}

/// Where the maze walk should end.
pub open spec fn path_goal() -> Point {
    Point { x: 21, y: 1 }
}

/// The maze-walking fitness of a genome of `len` turns: after a wall, the
/// longest run of open steps over `len`; otherwise that plus a fifth of the
/// closeness `1 - farthest / (2 len)`; in fixed point, rounded down.
pub open spec fn path_value(genome: Seq<i32>) -> int {
    let report = walk_report(genome, path_start(), path_goal());
    let len = genome.len() as int;
    if len == 0 {
        0
    } else if report.2 > 0 {
        report.3 * FIXED_ONE / len
    } else {
        (2 * len - report.4 + 10 * report.3) * FIXED_ONE / (10 * len)
    }
}

/// The maze-walking landscape (see `path_value`).
pub fn path_fitness(genome: &Vec<i32>, range: &Range<i32>) -> (r: i64)
    requires
        genome@.len() <= MAX_GENOME_LENGTH,
    ensures
        r == path_value(genome@),
        -6 * FIXED_ONE <= r <= 2 * FIXED_ONE,
{
    let len = genome.len();
    let start = Point { x: 1, y: 10 };
    let goal = Point { x: 21, y: 1 };
    let (steps, repeated, bad, longest, farthest) = walk(genome, start, goal);
    proof {
        lemma_walk_bounds(genome@, start, goal, len as int);
    }
    if len == 0 {
        0
    } else if bad > 0 {
        proof {
            assert(0 <= longest * FIXED_ONE / (len as int) <= FIXED_ONE) by (nonlinear_arith)
                requires longest <= len, len > 0, FIXED_ONE == 1_000_000;
        }
        (longest as i64) * FIXED_ONE / (len as i64)
    } else {
        let numerator: i128 = (2 * len as i128 - farthest as i128 + 10 * longest as i128) * (FIXED_ONE as i128);
        let value = floor_div_i128(numerator, 10 * len as i128);
        proof {
            let d = 10 * len as int;
            vstd::arithmetic::div_mod::lemma_fundamental_div_mod(numerator as int, d);
            let m = (numerator as int) % d;
            assert(-6 * FIXED_ONE <= value <= 2 * FIXED_ONE) by (nonlinear_arith)
                requires d * value + m == numerator, 0 <= m < d, d == 10 * len,
                    numerator == (2 * len - farthest + 10 * longest) * FIXED_ONE,
                    0 <= farthest <= 53, 0 <= longest <= len, len >= 1, FIXED_ONE == 1_000_000;
        }
        value as i64
    }
}

proof fn lemma_walk_bounds(genome: Seq<i32>, from: Point, to: Point, n: int)
    requires
        0 <= n <= genome.len(),
        from.x <= 24,
        from.y <= 29,
        to.x <= 24,
        to.y <= 29,
    ensures
        0 <= walk_run(genome, from, to, n).longest <= n,
        0 <= walk_run(genome, from, to, n).farthest <= 53,
        walk_run(genome, from, to, n).x <= 24,
        walk_run(genome, from, to, n).y <= 29,
        0 <= walk_run(genome, from, to, n).x,
        0 <= walk_run(genome, from, to, n).y,
    decreases n,
{
    if n > 0 {
        lemma_walk_bounds(genome, from, to, n - 1);
    }
}

} // verus!
