//! Directions, their fixed clockwise order, and the endpoint placer.

use vstd::prelude::*;

use crate::maze::{Maze, Part, Pos};
use crate::rng::Prng;

verus! {

/// One of the four 4-neighbour moves.
#[derive(Copy, Clone, Debug, PartialEq, Eq, Structural)]
pub enum Direction {
    Up,
    Down,
    Left,
    Right,
}

/// Whether the host currently animates progress, and how long one frame
/// lasts in microseconds. The core never sleeps; hosts read this.
#[derive(Copy, Clone, Debug, PartialEq, Eq, Structural)]
pub enum Progress {
    Delay(u64),
    Off,
}

/// The four directions in the fixed clockwise order starting at `Up`.
pub open spec fn all_dirs() -> Seq<Direction> {
    seq![Direction::Up, Direction::Right, Direction::Down, Direction::Left]
}

/// The four directions in clockwise order starting at `Up`.
pub fn all_directions() -> (r: Vec<Direction>)
    ensures
        r@ == all_dirs(),
{
    let mut v: Vec<Direction> = Vec::new();
    v.push(Direction::Up);
    v.push(Direction::Right);
    v.push(Direction::Down);
    v.push(Direction::Left);
    proof {
        assert(v@ =~= all_dirs());
    }
    v
}

/// The reverse of a direction.
pub open spec fn opposite(dir: Direction) -> Direction {
    match dir {
        Direction::Up => Direction::Down,
        Direction::Down => Direction::Up,
        Direction::Left => Direction::Right,
        Direction::Right => Direction::Left,
    }
}

pub fn opposite_dir(dir: &Direction) -> (r: Direction)
    ensures
        r == opposite(*dir),
{
    match dir {
        Direction::Up => Direction::Down,
        Direction::Down => Direction::Up,
        Direction::Left => Direction::Right,
        Direction::Right => Direction::Left,
    }
}

/// Reversing a direction twice gives the direction back.
pub proof fn lemma_opposite_involution(dir: Direction)
    ensures
        opposite(opposite(dir)) == dir,
{
}

/// Row `y` qualifies as the finish row: one of the two easternmost cells
/// of that row is `Open`.
pub open spec fn east_open_at(m: Maze, y: usize) -> bool {
    m.cell(Pos { x: (m.width - 1) as usize, y }) == Part::Open || m.cell(
        Pos { x: (m.width - 2) as usize, y },
    ) == Part::Open
}

/// Some row strictly inside the north and south boundaries qualifies as
/// the finish row: what the endpoint placer searches for.
pub open spec fn has_east_exit(m: Maze) -> bool {
    exists|y: usize| 1 <= y < m.height - 1 && east_open_at(m, y)
}

/// The row that resampling attempt `t` proposes: the `(n0 + t)`-th
/// draw reduced below `height - 1`, floored at row one.
pub open spec fn end_row_try(m: Maze, seed: u64, n0: nat, t: nat) -> usize {
    let draw = crate::rng::draw_of(seed, (n0 + t) as nat) as int % (m.height - 1);
    if draw < 1 {
        1usize
    } else {
        draw as usize
    }
}

/// The first qualifying row in order starting at `y`, or the last
/// candidate row: what the deterministic scan settles on.
pub open spec fn scan_east_row(m: Maze, y: int) -> usize
    decreases m.height - 1 - y,
{
    if y < 1 || y >= m.height - 2 {
        (m.height - 2) as usize
    } else if east_open_at(m, y as usize) {
        y as usize
    } else {
        scan_east_row(m, y + 1)
    }
}

/// The row the endpoint placer settles on: the first of at most 64
/// proposed rows that qualifies, else the scanned row.
pub open spec fn end_row(m: Maze, seed: u64, n0: nat, t: nat) -> usize
    decreases 64 - t,
{
    if t >= 64 {
        scan_east_row(m, 1)
    } else if east_open_at(m, end_row_try(m, seed, n0, t)) {
        end_row_try(m, seed, n0, t)
    } else {
        end_row(m, seed, n0, t + 1)
    }
}

/// How many draws the endpoint placer takes.
pub open spec fn end_draw_count(m: Maze, seed: u64, n0: nat, t: nat) -> nat
    decreases 64 - t,
{
    if t >= 64 {
        64
    } else if east_open_at(m, end_row_try(m, seed, n0, t)) {
        (t + 1) as nat
    } else {
        end_draw_count(m, seed, n0, t + 1)
    }
}

/// Pick the finish position on the east boundary: a row `y` in
/// `[1, height - 1)` such that `(width - 1, y)` or `(width - 2, y)` is
/// `Open`, sampled with the generator; after too many misses the rows are
/// scanned in order, so the search always ends.
pub fn pick_end(rng: &mut Prng, maze: &Maze) -> (r: Pos)
    requires
        maze.wf(),
        maze.height >= 3,
        maze.width >= 2,
        has_east_exit(*maze),
    ensures
        r.x == maze.width - 1,
        1 <= r.y < maze.height - 1,
        east_open_at(*maze, r.y),
        maze.contains(r),
        r.y == end_row(*maze, old(rng).seed(), old(rng).drawn(), 0),
        final(rng).seed() == old(rng).seed(),
        final(rng).drawn() == old(rng).drawn() + end_draw_count(
            *maze,
            old(rng).seed(),
            old(rng).drawn(),
            0,
        ),
{
    let ghost seed0 = old(rng).seed();
    let ghost n0 = old(rng).drawn();
    let height = maze.height_edge();
    let width = maze.width_edge();
    let mut tries: usize = 0;
    // Resampling hits an open row almost surely; the bound only makes the
    // search provably finite before the deterministic scan takes over.
    while tries < 64
        invariant
            maze.wf(),
            maze.height >= 3,
            maze.width >= 2,
            height == maze.height - 1,
            width == maze.width - 1,
            tries <= 64,
            rng.seed() == seed0,
            seed0 == old(rng).seed(),
            n0 == old(rng).drawn(),
            rng.drawn() == n0 + tries,
            end_row(*maze, seed0, n0, 0) == end_row(*maze, seed0, n0, tries as nat),
            end_draw_count(*maze, seed0, n0, 0) == end_draw_count(*maze, seed0, n0, tries as nat),
        decreases 64 - tries,
    {
        let draw = rng.next_below(height);
        let y = if draw < 1 {
            1
        } else {
            draw
        };
        proof {
            assert(y == end_row_try(*maze, seed0, n0, tries as nat));
        }
        let p = Pos { x: width, y };
        if maze.is_open(&p) || maze.is_open(&Pos { x: width - 1, y }) {
            proof {
                assert(east_open_at(*maze, y));
                assert(end_row(*maze, seed0, n0, tries as nat) == y);
                assert(end_draw_count(*maze, seed0, n0, tries as nat) == tries + 1);
            }
            return p;
        }
        proof {
            assert(!east_open_at(*maze, y));
            assert(end_row(*maze, seed0, n0, tries as nat) == end_row(
                *maze,
                seed0,
                n0,
                (tries + 1) as nat,
            ));
            assert(end_draw_count(*maze, seed0, n0, tries as nat) == end_draw_count(
                *maze,
                seed0,
                n0,
                (tries + 1) as nat,
            ));
        }
        tries = tries + 1;
    }
    proof {
        assert(end_row(*maze, seed0, n0, 64) == scan_east_row(*maze, 1));
        assert(end_draw_count(*maze, seed0, n0, 64) == 64);
    }
    let mut y: usize = 1;
    while y < height - 1
        invariant
            maze.wf(),
            maze.height >= 3,
            maze.width >= 2,
            height == maze.height - 1,
            width == maze.width - 1,
            1 <= y <= height - 1,
            forall|z: usize| 1 <= z < y ==> !east_open_at(*maze, z),
            rng.seed() == seed0,
            seed0 == old(rng).seed(),
            n0 == old(rng).drawn(),
            rng.drawn() == n0 + 64,
            end_row(*maze, seed0, n0, 0) == scan_east_row(*maze, 1),
            end_draw_count(*maze, seed0, n0, 0) == 64,
            scan_east_row(*maze, 1) == scan_east_row(*maze, y as int),
        decreases height - y,
    {
        let p = Pos { x: width, y };
        if maze.is_open(&p) || maze.is_open(&Pos { x: width - 1, y }) {
            proof {
                assert(east_open_at(*maze, y));
                assert(scan_east_row(*maze, y as int) == y);
            }
            return p;
        }
        proof {
            assert(!east_open_at(*maze, y));
            assert(scan_east_row(*maze, y as int) == scan_east_row(*maze, y + 1int));
        }
        y = y + 1;
    }
    let p = Pos { x: width, y };
    proof {
        assert(east_open_at(*maze, y)) by {
            assert(has_east_exit(*maze));
            let z = choose|z: usize|
                1 <= z < maze.height - 1 && east_open_at(*maze, z);
            assert(z == y);
        }
        assert(scan_east_row(*maze, y as int) == y);
    }
    p
}

} // verus!
