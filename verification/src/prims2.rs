//! The hybrid Prim's/backtracker carver: after each carve it keeps
//! walking away from the fresh cell, biased forward, before returning to
//! the random wall pop.

use vstd::prelude::*;

use crate::carve::{built_ok, closed_idxs, dims_ok, lemma_adjacent_parity, BuildError};
use crate::maze::{Maze, Part, Pos};
use crate::prims::{
    find_next, lemma_prim_carve, lemma_prim_discard, lemma_prim_done, lemma_prim_init,
    lemma_prim_remove, lemma_prim_step_parts, lemma_prim_weaken, place_endpoints_at_origin,
    prim_inv, prim_step_inv, walls_for,
};
use crate::rng::Prng;
use crate::shared::{all_dirs, all_directions, opposite, opposite_dir, Direction};

verus! {

/// The direction that leads from `pos1` to `pos2` when the two differ in
/// one axis; the spec-level rule `find_direction` follows.
pub open spec fn direction_between(pos1: Pos, pos2: Pos) -> Direction {
    if pos1.x == pos2.x && pos1.y > pos2.y {
        Direction::Up
    } else if pos1.x == pos2.x {
        Direction::Down
    } else if pos1.y == pos2.y && pos1.x > pos2.x {
        Direction::Left
    } else {
        Direction::Right
    }
}

pub fn find_direction(pos1: &Pos, pos2: &Pos) -> (r: Direction)
    ensures
        r == direction_between(*pos1, *pos2),
{
    if pos1.x == pos2.x && pos1.y > pos2.y {
        Direction::Up
    } else if pos1.x == pos2.x {
        Direction::Down
    } else if pos1.y == pos2.y && pos1.x > pos2.x {
        Direction::Left
    } else {
        Direction::Right
    }
}

/// The four-slot list the biased pick draws from: the slot holding the
/// opposite of `dir` is replaced by `dir` itself.
pub open spec fn biased_slot(dir: Direction, i: int) -> Direction {
    if all_dirs()[i] == opposite(dir) {
        dir
    } else {
        all_dirs()[i]
    }
}

/// Draw one of the four directions, with the slot of `dir`'s opposite
/// replaced by `dir` itself, so the walk never turns straight back and
/// is twice as likely to keep going forward. The result is the drawn
/// slot of the biased list.
pub fn rand_direction(rng: &mut Prng, dir: &Direction) -> (r: Direction)
    ensures
        r == biased_slot(
            *dir,
            crate::rng::draw_of(old(rng).seed(), old(rng).drawn()) as int % 4,
        ),
        r != opposite(*dir),
        final(rng).seed() == old(rng).seed(),
        final(rng).drawn() == old(rng).drawn() + 1,
{
    let op = opposite_dir(dir);
    let mut dirs = all_directions();
    let mut k: usize = 0;
    while k < 4
        invariant
            dirs@.len() == 4,
            op == opposite(*dir),
            forall|t: int| 0 <= t < k ==> #[trigger] dirs@[t] == biased_slot(*dir, t),
            forall|t: int| k <= t < 4 ==> #[trigger] dirs@[t] == all_dirs()[t],
        decreases 4 - k,
    {
        if dirs[k] == op {
            dirs.set(k, *dir);
        }
        proof {
            assert(dirs@[k as int] == biased_slot(*dir, k as int));
        }
        k = k + 1;
    }
    let pick = rng.next_below(4);
    proof {
        assert(opposite(*dir) != *dir) by {
            match *dir {
                Direction::Up => {},
                Direction::Down => {},
                Direction::Left => {},
                Direction::Right => {},
            }
        }
    }
    dirs[pick]
}

/// Build a maze by the hybrid carver: like Prim's, but after opening a
/// cell it keeps processing the wall one step onward from that cell (in
/// a forward-biased random direction) until the walk dies out; then
/// label the origin `Start` and place `Finish` on the east boundary.
pub fn generate(seed: u64, height: usize, width: usize) -> (r: Result<Maze, BuildError>)
    requires
        height * width <= usize::MAX,
    ensures
        r is Ok <==> dims_ok(height, width),
        match r {
            Ok(m) => built_ok(m, height, width, Pos { x: 1, y: 1 }),
            Err(e) => e == BuildError::Dimensions,
        },
{
    if !(height >= 3 && width >= 3 && height % 2 == 1 && width % 2 == 1) {
        return Err(BuildError::Dimensions);
    }
    let mut maze = Maze::new_empty(height, width);
    let ghost m_empty = maze;
    let mut rng = Prng::new(seed);
    let start = Pos { x: 1, y: 1 };
    maze.open(&start);
    let mut walls = walls_for(&start, &maze);
    proof {
        lemma_prim_init(m_empty, maze, walls@, height, width);
    }
    while walls.len() > 0
        invariant
            start == (Pos { x: 1usize, y: 1usize }),
            prim_inv(maze, walls@, height, width),
        decreases closed_idxs(maze).len(), walls@.len(),
    {
        let ghost m0 = maze;
        let ghost w0 = walls@;
        let index = rng.next_below(walls.len());
        let mut wall = walls.remove(index);
        proof {
            lemma_prim_remove(m0, w0, index as int, height, width);
        }
        let ghost m_outer = maze;
        let ghost w_outer = walls@;
        let mut walking = true;
        while walking
            invariant
                start == (Pos { x: 1usize, y: 1usize }),
                walking ==> prim_step_inv(maze, walls@, wall, height, width),
                !walking ==> prim_inv(maze, walls@, height, width),
                closed_idxs(maze).len() < closed_idxs(m_outer).len() || (maze == m_outer && walls@
                    == w_outer),
            decreases closed_idxs(maze).len(), (if walking {
                1int
            } else {
                0int
            }),
        {
            let ghost m0i = maze;
            let ghost w0i = walls@;
            proof {
                lemma_prim_step_parts(maze, walls@, wall, height, width);
            }
            match find_next(&wall, &maze, &start) {
                Some(next) => {
                    maze.open(&wall);
                    let ghost m1 = maze;
                    maze.open(&next);
                    let mut more = walls_for(&next, &maze);
                    let ghost a1 = more@;
                    walls.append(&mut more);
                    proof {
                        lemma_prim_carve(
                            m0i,
                            m1,
                            maze,
                            w0i,
                            walls@,
                            a1,
                            wall,
                            next,
                            height,
                            width,
                        );
                    }
                    let dir = find_direction(&wall, &next);
                    let ahead = rand_direction(&mut rng, &dir);
                    match maze.go(&next, &ahead) {
                        Some(goto) => {
                            proof {
                                lemma_adjacent_parity(next, goto);
                                lemma_prim_weaken(maze, walls@, goto, height, width);
                            }
                            wall = goto;
                        },
                        None => {
                            walking = false;
                        },
                    }
                },
                None => {
                    proof {
                        lemma_prim_discard(maze, walls@, wall, height, width);
                    }
                    walking = false;
                },
            }
        }
    }
    proof {
        lemma_prim_done(maze, walls@, height, width);
    }
    place_endpoints_at_origin(&mut maze, &mut rng, height, width);
    Ok(maze)
}

} // verus!
