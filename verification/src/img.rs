//! Render a maze and a solution overlay to raw pixels: one RGB triple
//! per cell, row-major. A host turns the buffer into an image file.

use vstd::prelude::*;

use crate::maze::{Maze, Part, Pos};

verus! {

/// The palette: wall grey, corridor dark grey, start green, finish red.
pub open spec fn color_spec(part: Part) -> (u8, u8, u8) {
    match part {
        Part::Wall => (128u8, 128u8, 128u8),
        Part::Open => (48u8, 48u8, 48u8),
        Part::Start => (0u8, 255u8, 0u8),
        Part::Finish => (255u8, 0u8, 0u8),
    }
}

/// The overlay colour for cells on the solution path.
pub open spec fn visited_color_spec() -> (u8, u8, u8) {
    (225u8, 200u8, 128u8)
}

pub fn color_of(part: Part) -> (r: (u8, u8, u8))
    ensures
        r == color_spec(part),
{
    match part {
        Part::Wall => (128, 128, 128),
        Part::Open => (48, 48, 48),
        Part::Start => (0, 255, 0),
        Part::Finish => (255, 0, 0),
    }
}

/// Whether the walk passes through `p`.
fn on_path(solution: &Vec<Pos>, p: &Pos) -> (r: bool)
    ensures
        r == solution@.contains(*p),
{
    let mut k: usize = 0;
    while k < solution.len()
        invariant
            k <= solution@.len(),
            forall|t: int| 0 <= t < k ==> solution@[t] != *p,
        decreases solution@.len() - k,
    {
        if solution[k].x == p.x && solution[k].y == p.y {
            proof {
                assert(solution@[k as int] == *p);
            }
            return true;
        }
        k = k + 1;
    }
    proof {
        if solution@.contains(*p) {
            let t = choose|t: int| 0 <= t < solution@.len() && solution@[t] == *p;
        }
    }
    false
}

/// The colour a cell is drawn with: its kind's colour, except that open
/// cells on the solution path get the overlay colour.
pub open spec fn pixel_spec(m: Maze, solution: Seq<Pos>, p: Pos) -> (u8, u8, u8) {
    if m.cell(p) != Part::Start && m.cell(p) != Part::Finish && solution.contains(p) {
        visited_color_spec()
    } else {
        color_spec(m.cell(p))
    }
}

/// Render the maze with its solution overlay as a flat row-major RGB
/// buffer, three bytes per cell.
pub fn render(maze: &Maze, solution: &Vec<Pos>) -> (r: Vec<u8>)
    requires
        maze.wf(),
        maze.width > 0,
    ensures
        r@.len() == 3 * maze.board@.len(),
        forall|p: Pos|
            maze.contains(p) ==> {
                let c = #[trigger] pixel_spec(*maze, solution@, p);
                r@[3 * maze.idx(p)] == c.0 && r@[3 * maze.idx(p) + 1] == c.1 && r@[3 * maze.idx(p)
                    + 2] == c.2
            },
{
    let n = maze.board.len();
    let mut r: Vec<u8> = Vec::new();
    let mut i: usize = 0;
    while i < n
        invariant
            maze.wf(),
            maze.width > 0,
            n == maze.board@.len(),
            i <= n,
            r@.len() == 3 * i,
            forall|j: int|
                0 <= j < i ==> {
                    let c = #[trigger] pixel_spec(
                        *maze,
                        solution@,
                        maze.pos_of(j),
                    );
                    r@[3 * j] == c.0 && r@[3 * j + 1] == c.1 && r@[3 * j + 2] == c.2
                },
        decreases n - i,
    {
        let pos = maze.to_pos(i);
        let part = maze.at(&pos);
        let is_end = matches!(part, Part::Start) || matches!(part, Part::Finish);
        let (cr, cg, cb) = if !is_end && on_path(solution, &pos) {
            (225, 200, 128)
        } else {
            color_of(part)
        };
        r.push(cr);
        r.push(cg);
        r.push(cb);
        proof {
            assert(maze.pos_of(i as int) == pos);
        }
        i = i + 1;
    }
    proof {
        assert forall|p: Pos| maze.contains(p) implies {
            let c = #[trigger] pixel_spec(*maze, solution@, p);
            r@[3 * maze.idx(p)] == c.0 && r@[3 * maze.idx(p) + 1] == c.1 && r@[3 * maze.idx(p) + 2]
                == c.2
        } by {
            crate::maze::lemma_idx_in_range(
                maze.height as int,
                maze.width as int,
                p.x as int,
                p.y as int,
            );
            crate::maze::lemma_pos_index_round_trip(
                maze.height as int,
                maze.width as int,
                p.x as int,
                p.y as int,
            );
            assert(maze.pos_of(maze.idx(p)) == p);
        }
    }
    r
}

} // verus!
