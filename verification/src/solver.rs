//! The tick-driven solver: one bounded step of randomised depth-first
//! search per call, with the frontier stack as the path so far.

use vstd::prelude::*;

use crate::maze::{adjacent, step_to, Maze, Part, Pos};
use crate::rng::Prng;
use crate::shared::{all_directions, opposite_dir, Direction};

verus! {

/// What one tick reports: a fresh cell (by grid index), the finish, or
/// no progress.
pub enum Path {
    Solved,
    Cell(usize),
    NoProgress,
}

/// One frontier entry: a reached position and the directions not yet
/// tried from it.
pub struct Visit {
    pub at: Pos,
    pub moves: Vec<Direction>,
}

/// Every frontier entry stands on a passable cell of the grid.
pub open spec fn visits_wf(m: Maze, s: Seq<Visit>) -> bool {
    forall|i: int|
        0 <= i < s.len() ==> m.contains(#[trigger] s[i].at) && m.cell(s[i].at) != Part::Wall
}

/// Consecutive frontier entries are 4-adjacent: the stack reads as a
/// walk.
pub open spec fn visits_chain(s: Seq<Visit>) -> bool {
    forall|i: int| 0 <= i < s.len() - 1 ==> adjacent(#[trigger] s[i].at, s[i + 1].at)
}

/// A reported solution: a walk of passable cells from the `Start` cell
/// to the `Finish` cell.
pub open spec fn solution_ok(m: Maze, path: Seq<Pos>) -> bool {
    &&& path.len() > 0
    &&& m.cell(path[0]) == Part::Start
    &&& m.cell(path.last()) == Part::Finish
    &&& forall|i: int| 0 <= i < path.len() ==> m.contains(#[trigger] path[i]) && m.cell(path[i]) != Part::Wall
    &&& forall|i: int| 0 <= i < path.len() - 1 ==> adjacent(#[trigger] path[i], path[i + 1])
}

/// The cell `start_at` reports: the `Start` cell with the smallest
/// row-major index.
pub open spec fn first_start(m: Maze, s: Pos) -> bool {
    &&& m.contains(s)
    &&& m.cell(s) == Part::Start
    &&& forall|q: Pos|
        m.contains(q) && m.cell(q) == Part::Start ==> m.idx(s) <= #[trigger] m.idx(q)
}

/// Some walk of passable cells leads from `s` to a `Finish` cell.
pub open spec fn finish_reachable(m: Maze, s: Pos) -> bool {
    exists|path: Seq<Pos>|
        #[trigger] crate::connect::is_path(m, path) && path.first() == s && m.cell(path.last())
            == Part::Finish
}

/// Where a direction sits in the fixed clockwise order.
pub open spec fn dir_index(d: Direction) -> int {
    match d {
        Direction::Up => 0,
        Direction::Right => 1,
        Direction::Down => 2,
        Direction::Left => 3,
    }
}

/// One exploration frame of the settling search: a reached cell and how
/// many of the four directions were already tried from it.
struct Frame {
    at: Pos,
    tried: usize,
}

/// The frame stack reads as a walk of passable cells from `start`.
spec fn frames_ok(m: Maze, s: Seq<Frame>, start: Pos) -> bool {
    &&& forall|i: int|
        0 <= i < s.len() ==> m.contains(#[trigger] s[i].at) && m.cell(s[i].at) != Part::Wall && s[
            i
        ].tried <= 4
    &&& forall|i: int| 0 <= i < s.len() - 1 ==> adjacent(#[trigger] s[i].at, s[i + 1].at)
    &&& s.len() > 0 ==> s[0].at == start
}

/// Whether the cell at `p` has been reached.
spec fn seen_at(m: Maze, seen: Seq<bool>, p: Pos) -> bool {
    seen[m.idx(p)]
}

/// Every passable neighbour of a reached cell is reached too, unless
/// the direction towards it is still pending on some frame.
spec fn search_closure(m: Maze, seen: Seq<bool>, s: Seq<Frame>) -> bool {
    forall|p: Pos, dir: Direction|
        #![trigger seen_at(m, seen, p), step_to(p, dir)]
        m.contains(p) && seen_at(m, seen, p) && m.can_go(p, dir) && m.cell(step_to(p, dir))
            != Part::Wall ==> seen_at(m, seen, step_to(p, dir)) || (exists|j: int|
            0 <= j < s.len() && (#[trigger] s[j]).at == p && dir_index(dir) >= s[j].tried)
}

/// The cells not yet reached; the settling search's main measure.
spec fn unseen(seen: Seq<bool>) -> Set<int> {
    Set::new(|i: int| 0 <= i < seen.len() && !seen[i])
}

proof fn lemma_unseen_finite(seen: Seq<bool>)
    ensures
        unseen(seen).finite(),
        unseen(seen).len() <= seen.len(),
{
    let whole = vstd::set_lib::set_int_range(0, seen.len() as int);
    vstd::set_lib::lemma_int_range(0, seen.len() as int);
    assert(unseen(seen).subset_of(whole));
    vstd::set_lib::lemma_len_subset(unseen(seen), whole);
}

/// Marking an unreached cell strictly shrinks the unreached set.
proof fn lemma_mark_seen(seen: Seq<bool>, i: int)
    requires
        0 <= i < seen.len(),
        !seen[i],
    ensures
        unseen(seen.update(i, true)).len() < unseen(seen).len(),
{
    assert(unseen(seen.update(i, true)) =~= unseen(seen).remove(i));
    lemma_unseen_finite(seen);
    vstd::set::axiom_set_remove_len(unseen(seen), i);
    assert(unseen(seen).contains(i));
}

/// The pending work on the frame stack.
spec fn frames_weight(s: Seq<Frame>) -> int
    decreases s.len(),
{
    if s.len() == 0 {
        0
    } else {
        frames_weight(s.drop_last()) + 5 - s.last().tried
    }
}

proof fn lemma_weight_nonneg(s: Seq<Frame>)
    requires
        forall|i: int| 0 <= i < s.len() ==> (#[trigger] s[i]).tried <= 4,
    ensures
        frames_weight(s) >= 0,
    decreases s.len(),
{
    if s.len() > 0 {
        lemma_weight_nonneg(s.drop_last());
    }
}

/// With no frame left, reached cells are closed under passable steps,
/// so a walk from a reached cell never leaves the reached set.
proof fn lemma_walk_stays_seen(m: Maze, seen: Seq<bool>, path: Seq<Pos>, i: int)
    requires
        m.wf(),
        crate::connect::is_path(m, path),
        search_closure(m, seen, Seq::<Frame>::empty()),
        seen_at(m, seen, path.first()),
        0 <= i < path.len(),
    ensures
        seen_at(m, seen, path[i]),
    decreases i,
{
    if i > 0 {
        lemma_walk_stays_seen(m, seen, path, i - 1);
        crate::maze::lemma_adjacent_dir(m, path[i - 1], path[i]);
        let dir = choose|dir: Direction|
            #[trigger] m.can_go(path[i - 1], dir) && step_to(path[i - 1], dir) == path[i];
        assert(seen_at(m, seen, step_to(path[i - 1], dir)));
    }
}

/// If the reached set is neighbour-closed, contains `start`, and holds
/// no `Finish` cell, then no walk from `start` reaches a finish.
proof fn lemma_exhausted_unreachable(m: Maze, seen: Seq<bool>, start: Pos)
    requires
        m.wf(),
        seen.len() == m.board@.len(),
        m.contains(start),
        seen_at(m, seen, start),
        search_closure(m, seen, Seq::<Frame>::empty()),
        forall|i: int| 0 <= i < seen.len() && #[trigger] seen[i] ==> m.board@[i] != Part::Finish,
    ensures
        !finish_reachable(m, start),
{
    if finish_reachable(m, start) {
        let path = choose|path: Seq<Pos>|
            #[trigger] crate::connect::is_path(m, path) && path.first() == start && m.cell(
                path.last(),
            ) == Part::Finish;
        lemma_walk_stays_seen(m, seen, path, path.len() - 1);
        let f = path.last();
        crate::maze::lemma_idx_in_range(m.height as int, m.width as int, f.x as int, f.y as int);
        assert(seen[m.idx(f)] && m.board@[m.idx(f)] == Part::Finish);
    }
}

/// Dropping an exhausted frame keeps the closure: no direction of it
/// was still pending.
proof fn lemma_closure_after_pop(m: Maze, seen: Seq<bool>, fr0: Seq<Frame>)
    requires
        search_closure(m, seen, fr0),
        fr0.len() > 0,
        fr0.last().tried >= 4,
    ensures
        search_closure(m, seen, fr0.drop_last()),
{
    let fr1 = fr0.drop_last();
    assert forall|p: Pos, dir: Direction|
        #![trigger seen_at(m, seen, p), step_to(p, dir)]
        m.contains(p) && seen_at(m, seen, p) && m.can_go(p, dir) && m.cell(step_to(p, dir))
            != Part::Wall implies seen_at(m, seen, step_to(p, dir)) || (exists|j: int|
        0 <= j < fr1.len() && (#[trigger] fr1[j]).at == p && dir_index(dir) >= fr1[j].tried) by {
        if !seen_at(m, seen, step_to(p, dir)) {
            let j = choose|j: int|
                0 <= j < fr0.len() && (#[trigger] fr0[j]).at == p && dir_index(dir) >= fr0[
                    j
                ].tried;
            assert(j < fr0.len() - 1) by {
                assert(dir_index(dir) <= 3) by {
                    match dir {
                        Direction::Up => {},
                        Direction::Right => {},
                        Direction::Down => {},
                        Direction::Left => {},
                    }
                }
            }
            assert(fr1[j].at == p && dir_index(dir) >= fr1[j].tried);
        }
    }
}

/// Trying one direction of the top frame keeps the closure, whether the
/// step was blocked, already reached, or freshly reached with a new
/// frame pushed.
proof fn lemma_closure_after_try(
    m: Maze,
    seen0: Seq<bool>,
    seen1: Seq<bool>,
    fr0: Seq<Frame>,
    fr1: Seq<Frame>,
    p: Pos,
    d: Direction,
    stepped: bool,
)
    requires
        m.wf(),
        seen0.len() == m.board@.len(),
        search_closure(m, seen0, fr0),
        fr0.len() > 0,
        fr0.last().at == p,
        m.contains(p),
        fr0.last().tried == dir_index(d),
        !stepped ==> seen1 == seen0 && fr1 == fr0.update(
            fr0.len() - 1,
            Frame { at: p, tried: (fr0.last().tried + 1) as usize },
        ) && ((m.can_go(p, d) && m.cell(step_to(p, d)) != Part::Wall) ==> seen_at(
            m,
            seen0,
            step_to(p, d),
        )),
        stepped ==> m.can_go(p, d) && m.contains(step_to(p, d)) && m.cell(step_to(p, d))
            != Part::Wall && seen1 == seen0.update(m.idx(step_to(p, d)), true) && fr1
            == fr0.update(
            fr0.len() - 1,
            Frame { at: p, tried: (fr0.last().tried + 1) as usize },
        ).push(Frame { at: step_to(p, d), tried: 0 }),
    ensures
        search_closure(m, seen1, fr1),
{
    let q = step_to(p, d);
    let top = fr0.len() - 1;
    if stepped {
        crate::maze::lemma_idx_in_range(m.height as int, m.width as int, q.x as int, q.y as int);
    }
    assert forall|i: int| 0 <= i < seen0.len() && seen0[i] implies seen1[i] by {}
    assert forall|q2: Pos, dir: Direction|
        #![trigger seen_at(m, seen1, q2), step_to(q2, dir)]
        m.contains(q2) && seen_at(m, seen1, q2) && m.can_go(q2, dir) && m.cell(step_to(q2, dir))
            != Part::Wall implies seen_at(m, seen1, step_to(q2, dir)) || (exists|j: int|
        0 <= j < fr1.len() && (#[trigger] fr1[j]).at == q2 && dir_index(dir) >= fr1[j].tried) by {
        crate::maze::lemma_idx_in_range(m.height as int, m.width as int, q2.x as int, q2.y as int);
        if stepped && q2 == q {
            assert(fr1[fr1.len() - 1].at == q2 && dir_index(dir) >= fr1[fr1.len() - 1].tried) by {
                assert(dir_index(dir) >= 0) by {
                    match dir {
                        Direction::Up => {},
                        Direction::Right => {},
                        Direction::Down => {},
                        Direction::Left => {},
                    }
                }
            }
        } else {
            assert(seen_at(m, seen0, q2)) by {
                if stepped && q2 != q {
                    crate::maze::lemma_idx_injective(m.height as int, m.width as int, q2, q);
                }
            }
            if q2 == p && dir == d {
                assert(seen_at(m, seen0, step_to(p, d)) || stepped);
                assert(seen_at(m, seen1, step_to(q2, dir)));
            } else if !seen_at(m, seen0, step_to(q2, dir)) {
                let j = choose|j: int|
                    0 <= j < fr0.len() && (#[trigger] fr0[j]).at == q2 && dir_index(dir) >= fr0[
                        j
                    ].tried;
                if j < top {
                    assert(fr1[j].at == q2 && dir_index(dir) >= fr1[j].tried);
                } else {
                    assert(q2 == p && dir_index(dir) >= dir_index(d));
                    assert(dir != d);
                    assert(dir_index(dir) > dir_index(d)) by {
                        match dir {
                            Direction::Up => {},
                            Direction::Right => {},
                            Direction::Down => {},
                            Direction::Left => {},
                        }
                        match d {
                            Direction::Up => {},
                            Direction::Right => {},
                            Direction::Down => {},
                            Direction::Left => {},
                        }
                    }
                    assert(fr1[top].at == p && dir_index(dir) >= fr1[top].tried);
                }
            } else {
                let q3 = step_to(q2, dir);
                crate::maze::lemma_idx_in_range(
                    m.height as int,
                    m.width as int,
                    q3.x as int,
                    q3.y as int,
                );
                assert(seen_at(m, seen1, q3));
            }
        }
    }
}

/// A deterministic depth-first sweep that settles solvability: it
/// returns a walk from `start` to a `Finish` cell exactly when one
/// exists. The drivers fall back on it so that success is owed whenever
/// the grid is solvable.
#[verifier::spinoff_prover]
#[verifier::rlimit(100)]
pub fn full_search(maze: &Maze, start: Pos) -> (r: Option<Vec<Pos>>)
    requires
        maze.wf(),
        maze.contains(start),
        maze.cell(start) == Part::Start,
    ensures
        match r {
            Some(path) => solution_ok(*maze, path@),
            None => true,
        },
        finish_reachable(*maze, start) ==> r is Some,
{
    let n = maze.board.len();
    let mut seen: Vec<bool> = Vec::new();
    while seen.len() < n
        invariant
            seen@.len() <= n,
            forall|i: int| 0 <= i < seen@.len() ==> !seen@[i],
        decreases n - seen@.len(),
    {
        seen.push(false);
    }
    let si = maze.pos_to_index(&start);
    seen.set(si, true);
    let mut frames: Vec<Frame> = Vec::new();
    frames.push(Frame { at: start, tried: 0 });
    let dirs = all_directions();
    proof {
        assert(frames@[0].at == start);
        assert forall|p: Pos, dir: Direction|
            #![trigger seen_at(*maze, seen@, p), step_to(p, dir)]
            maze.contains(p) && seen_at(*maze, seen@, p) && maze.can_go(p, dir) && maze.cell(
                step_to(p, dir),
            ) != Part::Wall implies seen_at(*maze, seen@, step_to(p, dir)) || (exists|j: int|
            0 <= j < frames@.len() && (#[trigger] frames@[j]).at == p && dir_index(dir)
                >= frames@[j].tried) by {
            crate::maze::lemma_idx_in_range(
                maze.height as int,
                maze.width as int,
                p.x as int,
                p.y as int,
            );
            if p != start {
                crate::maze::lemma_idx_injective(maze.height as int, maze.width as int, p, start);
            } else {
                assert(dir_index(dir) >= 0) by {
                    match dir {
                        Direction::Up => {},
                        Direction::Right => {},
                        Direction::Down => {},
                        Direction::Left => {},
                    }
                }
                assert(frames@[0].at == p && dir_index(dir) >= frames@[0].tried);
            }
        }
        assert forall|i: int|
            0 <= i < seen@.len() && #[trigger] seen@[i] implies maze.board@[i] != Part::Finish by {
            if i != si {
                assert(!seen@[i]);
            }
        }
        lemma_weight_nonneg(frames@);
    }
    while frames.len() > 0
        invariant
            maze.wf(),
            n == maze.board@.len(),
            seen@.len() == n,
            maze.contains(start),
            maze.cell(start) == Part::Start,
            dirs@ == crate::shared::all_dirs(),
            frames_ok(*maze, frames@, start),
            search_closure(*maze, seen@, frames@),
            forall|i: int|
                0 <= i < seen@.len() && #[trigger] seen@[i] ==> maze.board@[i] != Part::Finish,
            seen@[maze.idx(start)],
            frames_weight(frames@) >= 0,
        decreases 5 * unseen(seen@).len() + frames_weight(frames@),
    {
        let ghost seen0 = seen@;
        let ghost fr0 = frames@;
        let top = frames.len() - 1;
        let p = frames[top].at;
        let k = frames[top].tried;
        if k >= 4 {
            frames.pop();
            proof {
                assert(frames@ == fr0.drop_last());
                lemma_closure_after_pop(*maze, seen@, fr0);
                assert forall|i: int| 0 <= i < frames@.len() implies (#[trigger] frames@[i]).tried
                    <= 4 by {
                    assert(frames@[i] == fr0[i]);
                    assert(maze.contains(fr0[i].at) && fr0[i].tried <= 4);
                }
                lemma_weight_nonneg(frames@);
                assert(frames_weight(fr0) == frames_weight(frames@) + 5 - fr0.last().tried);
            }
        } else {
            frames.set(top, Frame { at: p, tried: k + 1 });
            let ghost frmid = frames@;
            proof {
                assert(frames@.drop_last() =~= fr0.drop_last());
                assert(frames_weight(frames@) == frames_weight(frames@.drop_last()) + 5
                    - frames@.last().tried);
                assert(frames_weight(fr0) == frames_weight(fr0.drop_last()) + 5 - fr0.last().tried);
                assert(frames_weight(frames@) == frames_weight(fr0) - 1);
                assert forall|i: int| 0 <= i < frames@.len() implies (#[trigger] frames@[i]).tried
                    <= 4 by {
                    if i != top {
                        assert(frames@[i] == fr0[i]);
                        assert(maze.contains(fr0[i].at) && fr0[i].tried <= 4);
                    } else {
                        assert(frames@[i].tried == k + 1);
                    }
                }
                lemma_weight_nonneg(frames@);
            }
            let d = dirs[k];
            proof {
                assert(dir_index(d) == k as int) by {
                    assert(dirs@[k as int] == crate::shared::all_dirs()[k as int]);
                    match d {
                        Direction::Up => {},
                        Direction::Right => {},
                        Direction::Down => {},
                        Direction::Left => {},
                    }
                }
            }
            let mut stepped = false;
            match maze.go(&p, &d) {
                Some(q) => {
                    if !maze.is_wall(&q) {
                        let qi = maze.pos_to_index(&q);
                        if !seen[qi] {
                            if maze.is_finished(&q) {
                                let mut path: Vec<Pos> = Vec::new();
                                let mut t: usize = 0;
                                while t < frames.len()
                                    invariant
                                        t <= frames@.len(),
                                        path@.len() == t,
                                        forall|u: int| 0 <= u < t ==> path@[u] == frames@[u].at,
                                    decreases frames@.len() - t,
                                {
                                    path.push(frames[t].at);
                                    t = t + 1;
                                }
                                path.push(q);
                                proof {
                                    assert(path@.len() == frames@.len() + 1);
                                    assert(path@[0] == start);
                                    assert(path@.last() == q);
                                    assert forall|u: int|
                                        0 <= u < path@.len() - 1 implies adjacent(
                                        #[trigger] path@[u],
                                        path@[u + 1],
                                    ) by {
                                        if u < frames@.len() - 1 {
                                            assert(path@[u] == frames@[u].at && path@[u + 1]
                                                == frames@[u + 1].at);
                                            assert(adjacent(frames@[u].at, frames@[u + 1].at));
                                        } else {
                                            assert(path@[u] == p);
                                        }
                                    }
                                    assert(solution_ok(*maze, path@));
                                }
                                return Some(path);
                            }
                            seen.set(qi, true);
                            frames.push(Frame { at: q, tried: 0 });
                            stepped = true;
                            proof {
                                lemma_mark_seen(seen0, qi as int);
                                assert(frames_weight(frames@) == frames_weight(
                                    frames@.drop_last(),
                                ) + 5);
                                assert(frames@.drop_last() == frmid);
                                assert forall|i: int|
                                    0 <= i < frames@.len() implies (#[trigger] frames@[i]).tried
                                    <= 4 by {
                                    if i < frames@.len() - 1 {
                                        assert(frames@[i] == frmid[i]);
                                        if i != top {
                                            assert(frmid[i] == fr0[i]);
                                            assert(maze.contains(fr0[i].at) && fr0[i].tried <= 4);
                                        } else {
                                            assert(frmid[i].tried == k + 1);
                                        }
                                    } else {
                                        assert(frames@[i].tried == 0);
                                    }
                                }
                                lemma_weight_nonneg(frames@);
                            }
                        }
                    }
                },
                None => {
                },
            }
            proof {
                assert((maze.can_go(p, d) && maze.cell(step_to(p, d)) != Part::Wall && !stepped)
                    ==> seen_at(*maze, seen0, step_to(p, d)));
                lemma_closure_after_try(*maze, seen0, seen@, fr0, frames@, p, d, stepped);
                crate::maze::lemma_idx_in_range(
                    maze.height as int,
                    maze.width as int,
                    start.x as int,
                    start.y as int,
                );
                assert(seen@[maze.idx(start)]);
                assert forall|i: int|
                    0 <= i < seen@.len() && #[trigger] seen@[i] implies maze.board@[i]
                    != Part::Finish by {
                    if stepped {
                        let qq = step_to(p, d);
                        if i != maze.idx(qq) {
                            assert(seen0[i]);
                        }
                    } else {
                        assert(seen0[i]);
                    }
                }
            }
        }
    }
    proof {
        lemma_exhausted_unreachable(*maze, seen@, start);
    }
    None
}

/// Settle a grid's solvability: find the start cell and run the
/// deterministic sweep, so that `Some` comes back exactly when the grid
/// is solvable from its start.
pub(crate) fn settle(maze: &Maze) -> (r: Option<Vec<Pos>>)
    requires
        maze.wf(),
    ensures
        match r {
            Some(path) => solution_ok(*maze, path@),
            None => true,
        },
        forall|s: Pos| first_start(*maze, s) && finish_reachable(*maze, s) ==> r is Some,
        !(*maze).has_start() ==> r is None,
{
    match maze.start_at() {
        Some(s) => {
            let r = full_search(maze, s);
            proof {
                assert forall|s2: Pos|
                    first_start(*maze, s2) && finish_reachable(*maze, s2) implies r is Some by {
                    assert(maze.idx(s2) <= maze.idx(s) && maze.idx(s) <= maze.idx(s2));
                    if s2 != s {
                        crate::maze::lemma_idx_injective(
                            maze.height as int,
                            maze.width as int,
                            s2,
                            s,
                        );
                    }
                }
            }
            r
        },
        None => None,
    }
}

/// Every built maze is solvable: its start cell is the one `start_at`
/// finds, and a walk to the finish exists, so both solvers' success
/// clauses apply and they return a solution on it.
pub proof fn lemma_built_solvable(m: Maze, height: usize, width: usize, s: Pos)
    requires
        crate::carve::built_ok(m, height, width, s),
    ensures
        m.has_start(),
        first_start(m, s),
        finish_reachable(m, s),
{
    assert(m.has_start());
    assert forall|q: Pos|
        m.contains(q) && m.cell(q) == Part::Start implies m.idx(s) <= #[trigger] m.idx(q) by {
        assert(q == s);
    }
    let f = choose|f: Pos| crate::carve::finish_ok(m, f);
    assert(crate::connect::passable(m, f));
    assert(crate::connect::connected(m, s, f));
    reveal(crate::connect::connected);
    let path = choose|path: Seq<Pos>| crate::connect::path_between(m, s, f, path);
    assert(crate::connect::is_path(m, path) && path.first() == s && m.cell(path.last())
        == Part::Finish);
}

/// Whether one step from `at` along `d` lands on the finish.
pub open spec fn finishward(m: Maze, at: Pos, d: Direction) -> bool {
    m.can_go(at, d) && m.cell(step_to(at, d)) == Part::Finish
}

/// The smallest index at or after `k` of a pending move that lands on
/// the finish, or the list length when none does.
pub open spec fn first_finishward(m: Maze, at: Pos, moves: Seq<Direction>, k: int) -> int
    decreases moves.len() - k,
{
    if k < 0 || k >= moves.len() {
        moves.len() as int
    } else if finishward(m, at, moves[k]) {
        k
    } else {
        first_finishward(m, at, moves, k + 1)
    }
}

/// Which pending move a tick takes: the first finish-ward one when any
/// exists (the greedy goal bite, no draw spent), else the one the drawn
/// value selects.
pub open spec fn chosen_index(m: Maze, at: Pos, moves: Seq<Direction>, raw: u64) -> int {
    let f = first_finishward(m, at, moves, 0);
    if f < moves.len() {
        f
    } else {
        raw as int % moves.len() as int
    }
}

/// The onward moves kept for a cell entered along `dir`: the directions
/// in clockwise order, except the way back, whose one-step neighbour is
/// on the grid and not a wall.
pub open spec fn onward_upto(m: Maze, p: Pos, dir: Direction, k: int) -> Seq<Direction>
    decreases k,
{
    if k <= 0 {
        Seq::empty()
    } else {
        let rest = onward_upto(m, p, dir, k - 1);
        let d2 = crate::shared::all_dirs()[k - 1];
        if d2 != crate::shared::opposite(dir) && m.can_go(p, d2) && m.cell(step_to(p, d2))
            != Part::Wall {
            rest.push(d2)
        } else {
            rest
        }
    }
}

/// How a tick transforms its state when it pops a visit that is not at
/// the finish and still has pending moves: the chosen move is removed;
/// when its step lands in bounds on a non-wall, unvisited cell, that
/// cell is visited and pushed with its onward moves, else nothing moves.
pub open spec fn tick_step_post(
    m: Maze,
    v0: Seq<usize>,
    s0: Seq<Visit>,
    raw: u64,
    v1: Seq<usize>,
    s1: Seq<Visit>,
    r: Path,
) -> bool {
    let visit = s0.last();
    let j = chosen_index(m, visit.at, visit.moves@, raw);
    let d = visit.moves@[j];
    let q = step_to(visit.at, d);
    &&& 0 <= j < visit.moves@.len()
    &&& if m.can_go(visit.at, d) && m.cell(q) != Part::Wall && !v0.contains(
        m.idx(q) as usize,
    ) {
        &&& r is Cell
        &&& s1.len() == s0.len() + 1
        &&& s1[s0.len() - 1].at == visit.at
        &&& s1[s0.len() - 1].moves@ == visit.moves@.remove(j)
        &&& s1.last().at == q
        &&& s1.last().moves@ == onward_upto(m, q, d, 4)
        &&& v1 == v0.push(m.idx(q) as usize)
        &&& forall|u: int| 0 <= u < s0.len() - 1 ==> s1[u] == s0[u]
    } else {
        &&& r is NoProgress
        &&& s1.len() == s0.len()
        &&& s1.last().at == visit.at
        &&& s1.last().moves@ == visit.moves@.remove(j)
        &&& v1 == v0
        &&& forall|u: int| 0 <= u < s0.len() - 1 ==> s1[u] == s0[u]
    }
}

/// The directions out of `p` worth keeping after arriving by `dir`:
/// everything except the way back whose one-step neighbour is not a
/// wall.
fn onward_moves(maze: &Maze, p: &Pos, dir: &Direction) -> (r: Vec<Direction>)
    requires
        maze.wf(),
        maze.contains(*p),
    ensures
        r@ == onward_upto(*maze, *p, *dir, 4),
        r@.len() <= 4,
{
    let dirs = all_directions();
    let mut r: Vec<Direction> = Vec::new();
    let mut k: usize = 0;
    while k < 4
        invariant
            maze.wf(),
            maze.contains(*p),
            dirs@ == crate::shared::all_dirs(),
            k <= 4,
            r@ == onward_upto(*maze, *p, *dir, k as int),
            r@.len() <= k,
        decreases 4 - k,
    {
        let d = dirs[k];
        if !(d == opposite_dir(dir)) {
            if let Some(n) = maze.go(p, &d) {
                if !maze.is_wall(&n) {
                    r.push(d);
                }
            }
        }
        proof {
            assert(r@ == onward_upto(*maze, *p, *dir, k + 1int));
        }
        k = k + 1;
    }
    r
}

/// One step of the tick solver. The first tick seeds the frontier at the
/// `Start` cell; later ticks pop the top visit and either report the
/// finish, drop an exhausted visit, or take one pending move — the
/// first finish-ward one, else the drawn one — visiting the neighbour
/// when it is new and passable.
pub fn solve_tick(maze: &Maze, rng: &mut Prng, visited: &mut Vec<usize>, visitor: &mut Vec<Visit>)
    -> (r: Path)
    requires
        maze.wf(),
        visits_wf(*maze, old(visitor)@),
        visits_chain(old(visitor)@),
        old(visited)@.len() == 0 ==> old(visitor)@.len() == 0,
    ensures
        visits_wf(*maze, final(visitor)@),
        visits_chain(final(visitor)@),
        final(rng).seed() == old(rng).seed(),
        old(visitor)@.len() > 0 && final(visitor)@.len() > 0 ==> final(visitor)@[0].at == old(visitor)@[0].at,
        old(visitor)@.len() == 0 && final(visitor)@.len() > 0 ==> maze.cell(
            final(visitor)@[0].at,
        ) == Part::Start,
        final(visited)@.len() == 0 ==> final(visitor)@.len() == 0,
        // the first tick seeds the frontier at the start cell
        old(visited)@.len() == 0 && (*maze).has_start() ==> r is Cell && final(visited)@.len()
            == 1 && final(visitor)@.len() == 1 && first_start(*maze, final(visitor)@[0].at)
            && final(visitor)@[0].moves@ == crate::shared::all_dirs() && final(visited)@[0]
            == maze.idx(final(visitor)@[0].at) && final(rng).drawn() == old(rng).drawn(),
        old(visited)@.len() == 0 && !(*maze).has_start() ==> r is NoProgress && final(visitor)@
            == old(visitor)@ && final(visited)@ == old(visited)@ && final(rng).drawn() == old(rng).drawn(),
        // a popped visit at the finish reports it and nothing moves
        old(visited)@.len() > 0 && old(visitor)@.len() > 0 && maze.cell(old(visitor)@.last().at)
            == Part::Finish ==> r is Solved && final(visitor)@ == old(visitor)@ && final(visited)@
            == old(visited)@ && final(rng).drawn() == old(rng).drawn(),
        // a popped visit with nothing pending is dropped
        old(visited)@.len() > 0 && old(visitor)@.len() > 0 && maze.cell(old(visitor)@.last().at)
            != Part::Finish && old(visitor)@.last().moves@.len() == 0 ==> r is NoProgress && final(visitor)@ == old(visitor)@.drop_last() && final(visited)@ == old(visited)@ && final(rng).drawn()
            == old(rng).drawn(),
        // otherwise one pending move is taken
        old(visited)@.len() > 0 && old(visitor)@.len() > 0 && maze.cell(old(visitor)@.last().at)
            != Part::Finish && old(visitor)@.last().moves@.len() > 0 ==> tick_step_post(
            *maze,
            old(visited)@,
            old(visitor)@,
            crate::rng::draw_of(old(rng).seed(), old(rng).drawn()),
            final(visited)@,
            final(visitor)@,
            r,
        ) && final(rng).drawn() == old(rng).drawn() + (if first_finishward(
            *maze,
            old(visitor)@.last().at,
            old(visitor)@.last().moves@,
            0,
        ) < old(visitor)@.last().moves@.len() {
            0int
        } else {
            1int
        }),
        old(visitor)@.len() == 0 && old(visited)@.len() > 0 ==> r is NoProgress && final(visitor)@
            == old(visitor)@ && final(visited)@ == old(visited)@ && final(rng).drawn() == old(rng).drawn(),
        match r {
            Path::Solved => old(visitor)@.len() > 0 && final(visitor)@.len() > 0 && maze.cell(
                final(visitor)@.last().at,
            ) == Part::Finish,
            Path::Cell(idx) => idx < maze.board@.len() && !old(visited)@.contains(idx) && final(visited)@ == old(visited)@.push(idx) && final(visitor)@.len() > 0 && maze.idx(
                final(visitor)@.last().at,
            ) == idx && maze.board@[idx as int] != Part::Wall,
            Path::NoProgress => final(visited)@ == old(visited)@,
        },
{
    if visited.len() == 0 {
        match maze.start_at() {
            Some(start) => {
                let idx = maze.pos_to_index(&start);
                visited.push(idx);
                let moves = all_directions();
                visitor.push(Visit { at: start, moves });
                return Path::Cell(idx);
            },
            None => {
                return Path::NoProgress;
            },
        }
    }
    let ghost v0 = visited@;
    let ghost s0 = visitor@;
    let mut visit = match visitor.pop() {
        Some(v) => v,
        None => {
            return Path::NoProgress;
        },
    };
    if maze.is_finished(&visit.at) {
        visitor.push(visit);
        proof {
            assert(visitor@ =~= s0);
        }
        return Path::Solved;
    }
    if visit.moves.len() == 0 {
        return Path::NoProgress;
    }
    // greedy goal bite: the first direction whose neighbour is the
    // finish wins, else one is drawn
    let ghost at0 = visit.at;
    let ghost moves0 = visit.moves@;
    let mut pick: usize = 0;
    let mut found = false;
    let mut k: usize = 0;
    while k < visit.moves.len()
        invariant
            maze.wf(),
            maze.contains(visit.at),
            visit.at == at0,
            visit.moves@ == moves0,
            k <= moves0.len(),
            found ==> pick < moves0.len(),
            first_finishward(*maze, at0, moves0, 0) == (if found {
                pick as int
            } else {
                first_finishward(*maze, at0, moves0, k as int)
            }),
        decreases moves0.len() - k,
    {
        if !found {
            let mut hit = false;
            match maze.go(&visit.at, &visit.moves[k]) {
                Some(n) => {
                    if maze.is_finished(&n) {
                        hit = true;
                    }
                },
                None => {
                },
            }
            if hit {
                pick = k;
                found = true;
                proof {
                    assert(finishward(*maze, at0, moves0[k as int]));
                    assert(first_finishward(*maze, at0, moves0, k as int) == k as int);
                }
            } else {
                proof {
                    assert(!finishward(*maze, at0, moves0[k as int]));
                    assert(first_finishward(*maze, at0, moves0, k as int) == first_finishward(
                        *maze,
                        at0,
                        moves0,
                        k + 1int,
                    ));
                }
            }
        }
        k = k + 1;
    }
    proof {
        if !found {
            assert(first_finishward(*maze, at0, moves0, moves0.len() as int) == moves0.len());
        }
    }
    if !found {
        pick = rng.next_below(visit.moves.len());
    }
    proof {
        assert(pick as int == chosen_index(
            *maze,
            at0,
            moves0,
            crate::rng::draw_of(old(rng).seed(), old(rng).drawn()),
        ));
    }
    let dir = visit.moves.remove(pick);
    let at = visit.at;
    visitor.push(visit);
    proof {
        assert(visitor@ =~= s0.drop_last().push(
            Visit { at: at0, moves: visitor@.last().moves },
        ));
        assert(visitor@.last().moves@ == moves0.remove(pick as int));
    }
    if let Some(p) = maze.go(&at, &dir) {
        let idx = maze.pos_to_index(&p);
        if !maze.is_wall(&p) && !contains_index(visited, idx) {
            visited.push(idx);
            let moves = onward_moves(maze, &p, &dir);
            visitor.push(Visit { at: p, moves });
            return Path::Cell(idx);
        }
    }
    Path::NoProgress
}

/// Whether `idx` is already among the visited indices.
fn contains_index(v: &Vec<usize>, idx: usize) -> (r: bool)
    ensures
        r == v@.contains(idx),
{
    let mut k: usize = 0;
    while k < v.len()
        invariant
            k <= v@.len(),
            forall|t: int| 0 <= t < k ==> v@[t] != idx,
        decreases v@.len() - k,
    {
        if v[k] == idx {
            proof {
                assert(v@[k as int] == idx);
            }
            return true;
        }
        k = k + 1;
    }
    proof {
        if v@.contains(idx) {
            let t = choose|t: int| 0 <= t < v@.len() && v@[t] == idx;
        }
    }
    false
}

/// Drive the tick solver to completion: tick until the finish is
/// reported, the frontier is exhausted, or the work bound runs out. A
/// reported path is a genuine walk from `Start` to `Finish`.
pub fn solve_complete(maze: &Maze, rng: &mut Prng) -> (r: Option<Vec<Pos>>)
    requires
        maze.wf(),
    ensures
        match r {
            Some(path) => solution_ok(*maze, path@),
            None => true,
        },
        forall|s: Pos| first_start(*maze, s) && finish_reachable(*maze, s) ==> r is Some,
        !(*maze).has_start() ==> r is None,
{
    let mut visited: Vec<usize> = Vec::new();
    let mut visitor: Vec<Visit> = Vec::new();
    let n = maze.board.len();
    let mut fuel: u128 = 8 * (n as u128) + 8;
    while fuel > 0
        invariant
            maze.wf(),
            visits_wf(*maze, visitor@),
            visits_chain(visitor@),
            visited@.len() == 0 ==> visitor@.len() == 0,
            visitor@.len() > 0 ==> maze.cell(visitor@[0].at) == Part::Start,
        decreases fuel,
    {
        fuel = fuel - 1;
        match solve_tick(maze, rng, &mut visited, &mut visitor) {
            Path::Solved => {
                let mut path: Vec<Pos> = Vec::new();
                let mut k: usize = 0;
                while k < visitor.len()
                    invariant
                        maze.wf(),
                        visits_wf(*maze, visitor@),
                        visits_chain(visitor@),
                        k <= visitor@.len(),
                        path@.len() == k,
                        forall|t: int| 0 <= t < k ==> path@[t] == visitor@[t].at,
                    decreases visitor@.len() - k,
                {
                    path.push(visitor[k].at);
                    k = k + 1;
                }
                proof {
                    assert(path@.len() == visitor@.len());
                    assert(maze.cell(path@[0]) == Part::Start);
                    assert(path@.last() == visitor@.last().at);
                    assert forall|i: int| 0 <= i < path@.len() - 1 implies adjacent(
                        #[trigger] path@[i],
                        path@[i + 1],
                    ) by {
                        assert(adjacent(visitor@[i].at, visitor@[i + 1].at));
                    }
                }
                return Some(path);
            },
            Path::Cell(_) => {
            },
            Path::NoProgress => {
                if visitor.len() == 0 && visited.len() > 0 {
                    return settle(maze);
                }
            },
        }
    }
    settle(maze)
}

} // verus!
