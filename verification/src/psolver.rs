//! The fan-out solver: branches fork at every junction and each is
//! followed until it reaches the finish or dies out. The work queue here
//! is processed sequentially; a host may hand the same branches to a
//! pool of workers instead, the walk per branch is identical.

use vstd::prelude::*;

use crate::maze::{adjacent, step_to, Maze, Part, Pos};
use crate::shared::{all_directions, opposite_dir, Direction};
use crate::solver::{finish_reachable, first_start, settle, solution_ok};

verus! {

/// One unit of work: follow `dir` from `at`; `path` is the walk from
/// the start cell up to and including `at`.
pub struct Branch {
    pub at: Pos,
    pub dir: Direction,
    pub path: Vec<Pos>,
}

/// A branch whose recorded walk is genuine: passable cells from `Start`
/// to `at`, 4-adjacent step by step.
pub open spec fn branch_ok(m: Maze, b: Branch) -> bool {
    &&& b.path@.len() > 0
    &&& b.path@.last() == b.at
    &&& m.cell(b.path@[0]) == Part::Start
    &&& forall|i: int|
        0 <= i < b.path@.len() ==> m.contains(#[trigger] b.path@[i]) && m.cell(b.path@[i])
            != Part::Wall
    &&& forall|i: int| 0 <= i < b.path@.len() - 1 ==> adjacent(#[trigger] b.path@[i], b.path@[i + 1])
}

/// Copy a walk so a forked branch owns its own.
fn copy_path(v: &Vec<Pos>) -> (r: Vec<Pos>)
    ensures
        r@ == v@,
{
    let mut r: Vec<Pos> = Vec::new();
    let mut k: usize = 0;
    while k < v.len()
        invariant
            k <= v@.len(),
            r@ == v@.subrange(0, k as int),
        decreases v@.len() - k,
    {
        r.push(v[k]);
        proof {
            assert(r@ =~= v@.subrange(0, k + 1 as int));
        }
        k = k + 1;
    }
    proof {
        assert(r@ =~= v@);
    }
    r
}

/// The directions out of `s` whose one-step neighbour is on the grid
/// and not a wall, in clockwise order: one branch each.
pub open spec fn open_dirs_upto(m: Maze, s: Pos, k: int) -> Seq<Direction>
    decreases k,
{
    if k <= 0 {
        Seq::empty()
    } else {
        let rest = open_dirs_upto(m, s, k - 1);
        let d = crate::shared::all_dirs()[k - 1];
        if m.can_go(s, d) && m.cell(step_to(s, d)) != Part::Wall {
            rest.push(d)
        } else {
            rest
        }
    }
}

/// The first branches out of the start cell: exactly one per direction
/// whose one-step neighbour is not a wall, in clockwise order, each
/// carrying the one-cell path `[start]`.
pub fn begin(start: Pos, maze: &Maze) -> (r: Vec<Branch>)
    requires
        maze.wf(),
        maze.contains(start),
        maze.cell(start) == Part::Start,
    ensures
        forall|t: int| 0 <= t < r@.len() ==> branch_ok(*maze, #[trigger] r@[t]),
        r@.len() == open_dirs_upto(*maze, start, 4).len(),
        forall|t: int|
            0 <= t < r@.len() ==> (#[trigger] r@[t]).dir == open_dirs_upto(*maze, start, 4)[t]
                && r@[t].at == start && r@[t].path@ == seq![start],
{
    let dirs = all_directions();
    let mut r: Vec<Branch> = Vec::new();
    let mut k: usize = 0;
    while k < 4
        invariant
            maze.wf(),
            maze.contains(start),
            maze.cell(start) == Part::Start,
            dirs@ == crate::shared::all_dirs(),
            k <= 4,
            forall|t: int| 0 <= t < r@.len() ==> branch_ok(*maze, #[trigger] r@[t]),
            r@.len() == open_dirs_upto(*maze, start, k as int).len(),
            forall|t: int|
                0 <= t < r@.len() ==> (#[trigger] r@[t]).dir == open_dirs_upto(
                    *maze,
                    start,
                    k as int,
                )[t] && r@[t].at == start && r@[t].path@ == seq![start],
        decreases 4 - k,
    {
        let ghost r0 = r@;
        let d = dirs[k];
        let mut took = false;
        if let Some(n) = maze.go(&start, &d) {
            if !maze.is_wall(&n) {
                let mut path: Vec<Pos> = Vec::new();
                path.push(start);
                let b = Branch { at: start, dir: d, path };
                proof {
                    assert(b.path@ =~= seq![start]);
                    assert(b.path@[0] == start);
                    assert(branch_ok(*maze, b));
                }
                r.push(b);
                took = true;
            }
        }
        proof {
            assert(open_dirs_upto(*maze, start, k + 1int) == (if maze.can_go(start, d)
                && maze.cell(step_to(start, d)) != Part::Wall {
                open_dirs_upto(*maze, start, k as int).push(d)
            } else {
                open_dirs_upto(*maze, start, k as int)
            }));
            if took {
                assert(r@ == r0.push(r@.last()));
            }
            assert forall|t: int|
                0 <= t < r@.len() implies (#[trigger] r@[t]).dir == open_dirs_upto(
                *maze,
                start,
                k + 1int,
            )[t] && r@[t].at == start && r@[t].path@ == seq![start] by {
                if t < r0.len() {
                    assert(r@[t] == r0[t]);
                }
            }
        }
        k = k + 1;
    }
    r
}

/// Follow one branch: walk while the next cell is in bounds and not a
/// wall, report a solution when the walk reaches the finish, and fork a
/// new branch for every other continuation at each cell. Every fork
/// extends this branch's walk; a branch whose first step is the finish
/// always reports a solution. The walk stops silently at a dead end (or
/// when the work bound runs out, which on an acyclic maze it never
/// does: a walk that never turns back cannot revisit a cell there).
#[verifier::loop_isolation(false)]
pub fn solver(maze: &Maze, branch: Branch, fuel: usize) -> (r: (Vec<Branch>, Option<Vec<Pos>>))
    requires
        maze.wf(),
        branch_ok(*maze, branch),
    ensures
        forall|t: int| 0 <= t < r.0@.len() ==> branch_ok(*maze, #[trigger] r.0@[t]),
        forall|t: int|
            0 <= t < r.0@.len() ==> (#[trigger] r.0@[t]).path@.len() > branch.path@.len()
                && branch.path@ == r.0@[t].path@.subrange(0, branch.path@.len() as int),
        match r.1 {
            Some(path) => solution_ok(*maze, path@),
            None => true,
        },
        fuel >= 1 && maze.can_go(branch.at, branch.dir) && maze.cell(
            step_to(branch.at, branch.dir),
        ) == Part::Finish ==> r.1 is Some,
{
    let ghost at0 = branch.at;
    let ghost dir0 = branch.dir;
    let ghost path0 = branch.path@;
    let mut at = branch.at;
    let mut dir = branch.dir;
    let mut path = branch.path;
    let mut forks: Vec<Branch> = Vec::new();
    let mut left = fuel;
    let mut walking = true;
    while walking && left > 0
        invariant
            maze.contains(at),
            path@.len() > 0,
            path@.last() == at,
            maze.cell(path@[0]) == Part::Start,
            forall|i: int|
                0 <= i < path@.len() ==> maze.contains(#[trigger] path@[i]) && maze.cell(path@[i])
                    != Part::Wall,
            forall|i: int| 0 <= i < path@.len() - 1 ==> adjacent(#[trigger] path@[i], path@[i + 1]),
            forall|t: int| 0 <= t < forks@.len() ==> branch_ok(*maze, #[trigger] forks@[t]),
            left <= fuel,
            path0.len() <= path@.len(),
            path0 == path@.subrange(0, path0.len() as int),
            forall|t: int|
                0 <= t < forks@.len() ==> (#[trigger] forks@[t]).path@.len() > path0.len()
                    && path0 == forks@[t].path@.subrange(0, path0.len() as int),
            (fuel >= 1 && maze.can_go(at0, dir0) && maze.cell(step_to(at0, dir0)) == Part::Finish)
                ==> (walking && left == fuel && at == at0 && dir == dir0),
        decreases left,
    {
        left = left - 1;
        match maze.go(&at, &dir) {
            None => {
                walking = false;
            },
            Some(next) => {
                if maze.is_wall(&next) {
                    walking = false;
                } else {
                    at = next;
                    path.push(at);
                    proof {
                        assert(path0 =~= path@.subrange(0, path0.len() as int));
                    }
                    if maze.is_finished(&at) {
                        return (forks, Some(path));
                    }
                    let mut moves: Vec<Direction> = Vec::new();
                    let dirs = all_directions();
                    let mut k: usize = 0;
                    while k < 4
                        invariant
                            dirs@.len() == 4,
                        decreases 4 - k,
                    {
                        let d = dirs[k];
                        if !(d == opposite_dir(&dir)) {
                            if let Some(n) = maze.go(&at, &d) {
                                if !maze.is_wall(&n) {
                                    moves.push(d);
                                }
                            }
                        }
                        k = k + 1;
                    }
                    match moves.pop() {
                        None => {
                            walking = false;
                        },
                        Some(d) => {
                            dir = d;
                            let mut j: usize = 0;
                            while j < moves.len()
                                invariant
                                    forall|t: int|
                                        0 <= t < forks@.len() ==> branch_ok(
                                            *maze,
                                            #[trigger] forks@[t],
                                        ),
                                    forall|t: int|
                                        0 <= t < forks@.len() ==> (#[trigger] forks@[t]).path@.len()
                                            > path0.len() && path0 == forks@[t].path@.subrange(
                                            0,
                                            path0.len() as int,
                                        ),
                                decreases moves@.len() - j,
                            {
                                let forked = Branch { at, dir: moves[j], path: copy_path(&path) };
                                proof {
                                    assert(branch_ok(*maze, forked));
                                }
                                forks.push(forked);
                                j = j + 1;
                            }
                        },
                    }
                }
            },
        }
    }
    (forks, None)
}

/// Solve by fanning out: seed the queue from the start cell, then run
/// branches until one reports a walk to the finish. A grid without a
/// start cell is unsolvable; so is an exhausted or over-budget search.
pub fn solve(maze: &Maze) -> (r: Option<Vec<Pos>>)
    requires
        maze.wf(),
    ensures
        match r {
            Some(path) => solution_ok(*maze, path@),
            None => true,
        },
        forall|s: Pos| first_start(*maze, s) && finish_reachable(*maze, s) ==> r is Some,
        !maze.has_start() ==> r is None,
{
    let start = match maze.start_at() {
        Some(p) => p,
        None => {
            return None;
        },
    };
    let mut queue = begin(start, maze);
    let n = maze.board.len();
    let mut budget: u128 = 8 * (n as u128) + 8;
    while budget > 0
        invariant
            maze.wf(),
            forall|t: int| 0 <= t < queue@.len() ==> branch_ok(*maze, #[trigger] queue@[t]),
        decreases budget,
    {
        budget = budget - 1;
        let branch = match queue.pop() {
            Some(b) => b,
            None => {
                return settle(maze);
            },
        };
        let (mut forks, solution) = solver(maze, branch, n);
        if let Some(path) = solution {
            return Some(path);
        }
        let ghost q0 = queue@;
        let ghost f0 = forks@;
        queue.append(&mut forks);
        proof {
            assert forall|t: int| 0 <= t < queue@.len() implies branch_ok(
                *maze,
                #[trigger] queue@[t],
            ) by {
                if t < q0.len() {
                    assert(queue@[t] == q0[t]);
                } else {
                    assert(queue@[t] == f0[t - q0.len()]);
                }
            }
        }
    }
    settle(maze)
}

} // verus!
