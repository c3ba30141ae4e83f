//! The randomised Prim's carver: pop candidate walls at random and open
//! those that separate a corridor from an uncarved cell.

use vstd::prelude::*;

use crate::carve::{
    built_ok, carve_parity, closed_idxs, dims_ok, fully_carved, lemma_adjacent_parity,
    lemma_closed_finite, lemma_full_coverage, lemma_mod2_minus, lemma_open_keeps_closed,
    lemma_open_shrinks_closed, lemma_parity_no_open_block, lemma_probe_between,
    lemma_probe_side_odd, odd_cell, probe_axis, separating, two_away, unlabelled, wall_cell,
    BuildError,
};
use crate::connect::{
    all_connected, lemma_connected_self, lemma_open_keeps_all_connected, passable,
};
use crate::maze::{adjacent, lemma_step_adjacent, lemma_step_back, step_to, Maze, Part, Pos};
use crate::rng::Prng;
use crate::shared::{all_directions, east_open_at, has_east_exit, opposite, pick_end, Direction};

verus! {

/// The cell Prim-style carving starts from.
pub open spec fn prim_origin() -> Pos {
    Pos { x: 1, y: 1 }
}

/// The in-bounds 4-neighbours of `pos` that are still walls — all of
/// them: a wall neighbour reached by any direction is on the list.
pub fn walls_for(pos: &Pos, m: &Maze) -> (r: Vec<Pos>)
    requires
        m.wf(),
        m.contains(*pos),
    ensures
        forall|t: int|
            0 <= t < r@.len() ==> m.contains(#[trigger] r@[t]) && m.cell(r@[t]) == Part::Wall
                && adjacent(*pos, r@[t]),
        forall|dir: Direction|
            m.can_go(*pos, dir) && m.cell(#[trigger] step_to(*pos, dir)) == Part::Wall
                ==> r@.contains(step_to(*pos, dir)),
{
    let dirs = all_directions();
    let mut r: Vec<Pos> = Vec::new();
    let mut k: usize = 0;
    while k < 4
        invariant
            m.wf(),
            m.contains(*pos),
            dirs@.len() == 4,
            dirs@ == crate::shared::all_dirs(),
            k <= 4,
            forall|t: int|
                0 <= t < r@.len() ==> m.contains(#[trigger] r@[t]) && m.cell(r@[t]) == Part::Wall
                    && adjacent(*pos, r@[t]),
            forall|t: int|
                0 <= t < k ==> (m.can_go(*pos, dirs@[t]) && m.cell(
                    #[trigger] step_to(*pos, dirs@[t]),
                ) == Part::Wall ==> r@.contains(step_to(*pos, dirs@[t]))),
        decreases 4 - k,
    {
        let ghost r0 = r@;
        if let Some(p) = m.go(pos, &dirs[k]) {
            if m.is_wall(&p) {
                r.push(p);
            }
        }
        proof {
            assert forall|t: int|
                0 <= t < k + 1 implies (m.can_go(*pos, dirs@[t]) && m.cell(
                #[trigger] step_to(*pos, dirs@[t]),
            ) == Part::Wall ==> r@.contains(step_to(*pos, dirs@[t]))) by {
                if t < k {
                    if m.can_go(*pos, dirs@[t]) && m.cell(step_to(*pos, dirs@[t])) == Part::Wall {
                        assert(r0.contains(step_to(*pos, dirs@[t])));
                        let j = choose|j: int| 0 <= j < r0.len() && r0[j] == step_to(*pos, dirs@[t]);
                        assert(r@[j] == step_to(*pos, dirs@[t]));
                    }
                } else {
                    if m.can_go(*pos, dirs@[t]) && m.cell(step_to(*pos, dirs@[t])) == Part::Wall {
                        assert(r@[r@.len() - 1] == step_to(*pos, dirs@[t]));
                    }
                }
            }
        }
        k = k + 1;
    }
    proof {
        assert forall|dir: Direction|
            m.can_go(*pos, dir) && m.cell(#[trigger] step_to(*pos, dir))
                == Part::Wall implies r@.contains(step_to(*pos, dir)) by {
            match dir {
                Direction::Up => {
                    assert(dirs@[0] == dir);
                },
                Direction::Right => {
                    assert(dirs@[1] == dir);
                },
                Direction::Down => {
                    assert(dirs@[2] == dir);
                },
                Direction::Left => {
                    assert(dirs@[3] == dir);
                },
            }
        }
    }
    r
}

/// A wall whose column parity differs from the origin's separates east
/// and west neighbours.
pub fn is_wall_horizontal(check: &Pos, start: &Pos) -> (r: bool)
    ensures
        r == (check.x % 2 != start.x % 2),
{
    check.x % 2 != start.x % 2
}

/// Look across `wall`: exactly when one of the two cells along the
/// wall's probe axis is open and the other is on the grid but not open,
/// the uncarved one is the next cell to open.
pub fn find_next(wall: &Pos, m: &Maze, start: &Pos) -> (r: Option<Pos>)
    requires
        m.wf(),
        m.contains(*wall),
        start.x % 2 == 1,
    ensures
        r is Some <==> separating(*m, *wall),
        match r {
            Some(c) => {
                &&& m.contains(c)
                &&& m.cell(c) != Part::Open
                &&& adjacent(*wall, c)
                &&& (c == step_to(*wall, probe_axis(*wall).0) && m.cell(
                    step_to(*wall, probe_axis(*wall).1),
                ) == Part::Open) || (c == step_to(*wall, probe_axis(*wall).1) && m.cell(
                    step_to(*wall, probe_axis(*wall).0),
                ) == Part::Open)
            },
            None => true,
        },
{
    proof {
        vstd::arithmetic::div_mod::lemma_mod_bound(wall.x as int, 2);
        vstd::arithmetic::div_mod::lemma_mod_bound(start.x as int, 2);
    }
    let (a, b) = if is_wall_horizontal(wall, start) {
        (m.go(wall, &Direction::Left), m.go(wall, &Direction::Right))
    } else {
        (m.go(wall, &Direction::Up), m.go(wall, &Direction::Down))
    };
    match (a, b) {
        (Some(c0), Some(c1)) => {
            if m.is_open(&c0) && !m.is_open(&c1) {
                Some(c1)
            } else if m.is_open(&c1) && !m.is_open(&c0) {
                Some(c0)
            } else {
                None
            }
        },
        _ => None,
    }
}

/// Every open wall-parity cell was carved through: both its probe-axis
/// neighbours are on the grid and open.
pub open spec fn flanked(m: Maze) -> bool {
    forall|w: Pos|
        #![trigger m.cell(w), wall_cell(w)]
        m.contains(w) && wall_cell(w) && m.cell(w) == Part::Open ==> m.can_go(w, probe_axis(w).0)
            && m.can_go(w, probe_axis(w).1) && m.cell(step_to(w, probe_axis(w).0)) == Part::Open
            && m.cell(step_to(w, probe_axis(w).1)) == Part::Open
}

/// Every wall that still separates a corridor from an uncarved cell is
/// on the working list.
pub open spec fn sep_covered(m: Maze, walls: Seq<Pos>) -> bool {
    forall|w: Pos|
        m.contains(w) && wall_cell(w) && m.cell(w) == Part::Wall && #[trigger] separating(m, w)
            ==> walls.contains(w)
}

/// Working-list entries are in-bounds wall-parity positions.
pub open spec fn walls_wf(m: Maze, walls: Seq<Pos>) -> bool {
    forall|t: int| 0 <= t < walls.len() ==> m.contains(#[trigger] walls[t]) && wall_cell(walls[t])
}

/// What holds of the grid and the working list throughout Prim-style
/// carving.
#[verifier::opaque]
pub open spec fn prim_inv(m: Maze, walls: Seq<Pos>, height: usize, width: usize) -> bool {
    &&& m.wf()
    &&& m.height == height
    &&& m.width == width
    &&& dims_ok(height, width)
    &&& unlabelled(m)
    &&& carve_parity(m)
    &&& m.cell(prim_origin()) == Part::Open
    &&& all_connected(m, prim_origin())
    &&& flanked(m)
    &&& walls_wf(m, walls)
    &&& sep_covered(m, walls)
}

/// The invariant while one popped (or walked-to) wall is in hand: the
/// working list may be missing that one wall.
#[verifier::opaque]
pub open spec fn prim_step_inv(
    m: Maze,
    walls: Seq<Pos>,
    wall: Pos,
    height: usize,
    width: usize,
) -> bool {
    &&& m.wf()
    &&& m.height == height
    &&& m.width == width
    &&& dims_ok(height, width)
    &&& unlabelled(m)
    &&& carve_parity(m)
    &&& m.cell(prim_origin()) == Part::Open
    &&& all_connected(m, prim_origin())
    &&& flanked(m)
    &&& walls_wf(m, walls)
    &&& m.contains(wall)
    &&& wall_cell(wall)
    &&& forall|w: Pos|
        m.contains(w) && wall_cell(w) && m.cell(w) == Part::Wall && #[trigger] separating(m, w)
            && w != wall ==> walls.contains(w)
}

/// What callers read off the in-hand invariant.
pub(crate) proof fn lemma_prim_step_parts(m: Maze, walls: Seq<Pos>, wall: Pos, height: usize, width: usize)
    requires
        prim_step_inv(m, walls, wall, height, width),
    ensures
        m.wf(),
        m.height == height,
        m.width == width,
        dims_ok(height, width),
        m.contains(wall),
        wall_cell(wall),
{
    reveal(prim_step_inv);
}

/// The full invariant gives the in-hand one for any wall-parity cell.
pub(crate) proof fn lemma_prim_weaken(m: Maze, walls: Seq<Pos>, wall: Pos, height: usize, width: usize)
    requires
        prim_inv(m, walls, height, width),
        m.contains(wall),
        wall_cell(wall),
    ensures
        prim_step_inv(m, walls, wall, height, width),
{
    reveal(prim_inv);
    reveal(prim_step_inv);
}

/// Removing one entry to process it keeps the in-hand invariant for it.
pub(crate) proof fn lemma_prim_remove(m: Maze, walls0: Seq<Pos>, index: int, height: usize, width: usize)
    requires
        prim_inv(m, walls0, height, width),
        0 <= index < walls0.len(),
    ensures
        prim_step_inv(m, walls0.remove(index), walls0[index], height, width),
{
    reveal(prim_inv);
    reveal(prim_step_inv);
    let walls1 = walls0.remove(index);
    let wall = walls0[index];
    assert forall|t: int| 0 <= t < walls1.len() implies m.contains(#[trigger] walls1[t])
        && wall_cell(walls1[t]) by {
        if t < index {
            assert(walls1[t] == walls0[t]);
        } else {
            assert(walls1[t] == walls0[t + 1]);
        }
    }
    assert forall|w: Pos|
        m.contains(w) && wall_cell(w) && m.cell(w) == Part::Wall && #[trigger] separating(m, w)
            && w != wall implies walls1.contains(w) by {
        assert(walls0.contains(w));
        let j = choose|j: int| 0 <= j < walls0.len() && walls0[j] == w;
        if j < index {
            assert(walls1[j] == w);
        } else {
            assert(j > index);
            assert(walls1[j - 1] == w);
        }
    }
}

/// A wall that does not separate may be dropped: the full invariant
/// holds again.
pub(crate) proof fn lemma_prim_discard(m: Maze, walls: Seq<Pos>, wall: Pos, height: usize, width: usize)
    requires
        prim_step_inv(m, walls, wall, height, width),
        !separating(m, wall),
    ensures
        prim_inv(m, walls, height, width),
{
    reveal(prim_inv);
    reveal(prim_step_inv);
}

/// The invariant holds once the origin is open and its wall neighbours
/// form the working list.
pub(crate) proof fn lemma_prim_init(m0: Maze, m1: Maze, walls: Seq<Pos>, height: usize, width: usize)
    requires
        dims_ok(height, width),
        m0.wf(),
        m0.height == height,
        m0.width == width,
        forall|p: Pos| m0.contains(p) ==> #[trigger] m0.cell(p) == Part::Wall,
        m1.height == height,
        m1.width == width,
        m1.wf(),
        m1.cell(prim_origin()) == Part::Open,
        forall|q: Pos| m0.contains(q) && q != prim_origin() ==> #[trigger] m1.cell(q) == m0.cell(q),
        forall|t: int|
            0 <= t < walls.len() ==> m1.contains(#[trigger] walls[t]) && m1.cell(walls[t])
                == Part::Wall && adjacent(prim_origin(), walls[t]),
        forall|dir: Direction|
            m1.can_go(prim_origin(), dir) && m1.cell(#[trigger] step_to(prim_origin(), dir))
                == Part::Wall ==> walls.contains(step_to(prim_origin(), dir)),
    ensures
        prim_inv(m1, walls, height, width),
{
    reveal(prim_inv);
    let origin = prim_origin();
    lemma_connected_self(m1, origin);
    assert forall|p: Pos| m1.contains(p) && passable(m1, p) implies crate::connect::connected(
        m1,
        origin,
        p,
    ) by {
        if p != origin {
            assert(m1.cell(p) == Part::Wall);
        }
    }
    assert forall|p: Pos|
        m1.contains(p) && #[trigger] m1.cell(p) == Part::Open implies p.x % 2 == 1 || p.y % 2
        == 1 by {
        if p != origin {
            assert(m1.cell(p) == Part::Wall);
        }
    }
    assert forall|p: Pos| m1.contains(p) implies (#[trigger] m1.cell(p) == Part::Wall || m1.cell(p)
        == Part::Open) by {
        if p != origin {
            assert(m1.cell(p) == Part::Wall);
        }
    }
    assert forall|w: Pos|
        #![trigger m1.cell(w), wall_cell(w)]
        m1.contains(w) && wall_cell(w) && m1.cell(w) == Part::Open implies m1.can_go(
        w,
        probe_axis(w).0,
    ) && m1.can_go(w, probe_axis(w).1) && m1.cell(step_to(w, probe_axis(w).0)) == Part::Open
        && m1.cell(step_to(w, probe_axis(w).1)) == Part::Open by {
        assert(w != origin);
        assert(m1.cell(w) == Part::Wall);
    }
    assert forall|t: int| 0 <= t < walls.len() implies m1.contains(#[trigger] walls[t])
        && wall_cell(walls[t]) by {
        lemma_adjacent_parity(origin, walls[t]);
    }
    assert forall|w: Pos|
        m1.contains(w) && wall_cell(w) && m1.cell(w) == Part::Wall && #[trigger] separating(
            m1,
            w,
        ) implies walls.contains(w) by {
        let a = probe_axis(w).0;
        let b = probe_axis(w).1;
        let o = if m1.cell(step_to(w, a)) == Part::Open {
            a
        } else {
            b
        };
        assert(m1.cell(step_to(w, o)) == Part::Open);
        lemma_step_adjacent(m1, w, o);
        assert(step_to(w, o) == origin) by {
            if step_to(w, o) != origin {
                assert(m1.cell(step_to(w, o)) == m0.cell(step_to(w, o)));
            }
        }
        lemma_step_back(m1, w, o);
        assert(m1.can_go(origin, opposite(o)) && step_to(origin, opposite(o)) == w);
    }
}

/// One successful carve: the wall in hand and the cell across it are
/// opened, the fresh cell's wall neighbours join the list, and the full
/// invariant holds again while the measure shrinks.
pub(crate) proof fn lemma_prim_carve(
    m0: Maze,
    m1: Maze,
    m2: Maze,
    walls1: Seq<Pos>,
    walls2: Seq<Pos>,
    more: Seq<Pos>,
    wall: Pos,
    next: Pos,
    height: usize,
    width: usize,
)
    requires
        prim_step_inv(m0, walls1, wall, height, width),
        separating(m0, wall),
        m0.contains(next),
        m0.cell(next) != Part::Open,
        adjacent(wall, next),
        (next == step_to(wall, probe_axis(wall).0) && m0.cell(step_to(wall, probe_axis(wall).1))
            == Part::Open) || (next == step_to(wall, probe_axis(wall).1) && m0.cell(
            step_to(wall, probe_axis(wall).0),
        ) == Part::Open),
        m1.height == height,
        m1.width == width,
        m1.wf(),
        m1.board@ == m0.board@.update(m0.idx(wall), Part::Open),
        m1.cell(wall) == Part::Open,
        forall|q: Pos| m0.contains(q) && q != wall ==> #[trigger] m1.cell(q) == m0.cell(q),
        m2.height == height,
        m2.width == width,
        m2.wf(),
        m2.board@ == m1.board@.update(m1.idx(next), Part::Open),
        m2.cell(next) == Part::Open,
        forall|q: Pos| m1.contains(q) && q != next ==> #[trigger] m2.cell(q) == m1.cell(q),
        forall|t: int|
            0 <= t < more.len() ==> m2.contains(#[trigger] more[t]) && m2.cell(more[t])
                == Part::Wall && adjacent(next, more[t]),
        forall|dir: Direction|
            m2.can_go(next, dir) && m2.cell(#[trigger] step_to(next, dir)) == Part::Wall
                ==> more.contains(step_to(next, dir)),
        walls2 == walls1 + more,
    ensures
        prim_inv(m2, walls2, height, width),
        closed_idxs(m2).len() < closed_idxs(m0).len(),
        odd_cell(next),
        m2.contains(next),
{
    reveal(prim_inv);
    reveal(prim_step_inv);
    let origin = prim_origin();
    let a = probe_axis(wall).0;
    let b = probe_axis(wall).1;
    let od = if next == step_to(wall, a) {
        b
    } else {
        a
    };
    let o = step_to(wall, od);
    assert(m0.cell(o) == Part::Open);
    lemma_step_adjacent(m0, wall, od);
    lemma_probe_side_odd(m0, wall, a);
    lemma_probe_side_odd(m0, wall, b);
    assert(odd_cell(next) && odd_cell(o));
    assert(next != wall && o != wall && o != next);
    // the measure shrinks
    if m0.cell(wall) != Part::Open {
        lemma_open_shrinks_closed(m0, m1, wall);
    } else {
        lemma_open_keeps_closed(m0, m1, wall);
    }
    lemma_closed_finite(m0);
    assert(m1.cell(next) != Part::Open);
    lemma_open_shrinks_closed(m1, m2, next);
    // connectivity spreads over the wall and into the fresh cell
    lemma_open_keeps_all_connected(m0, m1, origin, wall, o);
    lemma_open_keeps_all_connected(m1, m2, origin, next, wall);
    // open cells only grow
    assert forall|q: Pos|
        m0.contains(q) && #[trigger] m0.cell(q) == Part::Open implies m2.cell(q) == Part::Open by {
        if q != wall && q != next {
            assert(m1.cell(q) == m0.cell(q));
        }
    }
    assert(m2.cell(origin) == Part::Open);
    // parity
    assert forall|p: Pos|
        m2.contains(p) && #[trigger] m2.cell(p) == Part::Open implies p.x % 2 == 1 || p.y % 2
        == 1 by {
        if p != wall && p != next {
            assert(m2.cell(p) == m1.cell(p) && m1.cell(p) == m0.cell(p));
        }
    }
    // still only walls and corridors
    assert forall|p: Pos| m2.contains(p) implies (#[trigger] m2.cell(p) == Part::Wall || m2.cell(p)
        == Part::Open) by {
        if p != wall && p != next {
            assert(m2.cell(p) == m1.cell(p) && m1.cell(p) == m0.cell(p));
        }
    }
    // every open wall-parity cell is flanked by open corridor cells
    assert forall|w: Pos|
        #![trigger m2.cell(w), wall_cell(w)]
        m2.contains(w) && wall_cell(w) && m2.cell(w) == Part::Open implies m2.can_go(
        w,
        probe_axis(w).0,
    ) && m2.can_go(w, probe_axis(w).1) && m2.cell(step_to(w, probe_axis(w).0)) == Part::Open
        && m2.cell(step_to(w, probe_axis(w).1)) == Part::Open by {
        if w == wall {
            assert(m2.cell(o) == Part::Open);
        } else {
            assert(w != next);
            assert(m2.cell(w) == m1.cell(w) && m1.cell(w) == m0.cell(w));
            assert(m0.cell(w) == Part::Open);
            assert(m0.cell(step_to(w, probe_axis(w).0)) == Part::Open);
            assert(m0.cell(step_to(w, probe_axis(w).1)) == Part::Open);
        }
    }
    // the new list entries are in-bounds wall-parity cells
    assert forall|t: int| 0 <= t < walls2.len() implies m2.contains(#[trigger] walls2[t])
        && wall_cell(walls2[t]) by {
        if t < walls1.len() {
            assert(walls2[t] == walls1[t]);
        } else {
            assert(walls2[t] == more[t - walls1.len()]);
            lemma_adjacent_parity(next, more[t - walls1.len()]);
        }
    }
    // every separating wall is still covered
    assert forall|w: Pos|
        m2.contains(w) && wall_cell(w) && m2.cell(w) == Part::Wall && #[trigger] separating(
            m2,
            w,
        ) implies walls2.contains(w) by {
        assert(w != wall && w != next);
        assert(m2.cell(w) == m1.cell(w) && m1.cell(w) == m0.cell(w));
        let wa = probe_axis(w).0;
        let wb = probe_axis(w).1;
        lemma_probe_side_odd(m2, w, wa);
        lemma_probe_side_odd(m2, w, wb);
        if step_to(w, wa) == next || step_to(w, wb) == next {
            let d = if step_to(w, wa) == next {
                wa
            } else {
                wb
            };
            lemma_step_back(m2, w, d);
            assert(m2.can_go(next, opposite(d)) && step_to(next, opposite(d)) == w);
            assert(more.contains(w));
            let j = choose|j: int| 0 <= j < more.len() && more[j] == w;
            assert(walls2[walls1.len() + j] == w);
        } else {
            assert(step_to(w, wa) != wall && step_to(w, wb) != wall);
            assert(m2.cell(step_to(w, wa)) == m0.cell(step_to(w, wa)));
            assert(m2.cell(step_to(w, wb)) == m0.cell(step_to(w, wb)));
            assert(separating(m0, w));
            assert(walls1.contains(w));
            let j = choose|j: int| 0 <= j < walls1.len() && walls1[j] == w;
            assert(walls2[j] == w);
        }
    }
}

/// When the working list has emptied, carving is complete: every odd
/// cell is open, so the endpoint placer will find an east exit.
pub(crate) proof fn lemma_prim_done(m: Maze, walls: Seq<Pos>, height: usize, width: usize)
    requires
        prim_inv(m, walls, height, width),
        walls.len() == 0,
    ensures
        m.wf(),
        m.height == height,
        m.width == width,
        dims_ok(height, width),
        unlabelled(m),
        carve_parity(m),
        all_connected(m, prim_origin()),
        m.cell(prim_origin()) == Part::Open,
        fully_carved(m),
        m.cell(Pos { x: (width - 2) as usize, y: 1 }) == Part::Open,
        east_open_at(m, 1),
        has_east_exit(m),
{
    reveal(prim_inv);
    assert forall|p: Pos|
        m.contains(p) && odd_cell(p) && #[trigger] m.cell(p) == Part::Open implies
        crate::carve::carved_around(m, p) by {
        assert forall|dir: Direction| crate::carve::can_go2(m, p, dir) implies m.cell(
            #[trigger] two_away(p, dir),
        ) == Part::Open by {
            lemma_probe_between(m, p, dir);
            let w = step_to(p, dir);
            let e = two_away(p, dir);
            if m.cell(w) == Part::Open {
                assert(m.cell(e) == Part::Open);
            } else {
                assert(m.cell(w) == Part::Wall);
                if m.cell(e) != Part::Open {
                    assert(separating(m, w));
                    assert(walls.contains(w));
                }
            }
        }
    }
    let e = Pos { x: (width - 2) as usize, y: 1 };
    lemma_mod2_minus(width as int);
    lemma_full_coverage(m, e);
    assert(east_open_at(m, 1));
    assert(has_east_exit(m)) by {
        assert(1 <= 1usize < m.height - 1 && east_open_at(m, 1usize));
    }
}

/// Place the finish on the east boundary of the carved grid, then label
/// the origin as `Start` and the picked cell as `Finish`.
pub(crate) fn place_endpoints_at_origin(maze: &mut Maze, rng: &mut Prng, height: usize, width: usize)
    requires
        old(maze).wf(),
        old(maze).height == height,
        old(maze).width == width,
        dims_ok(height, width),
        unlabelled(*old(maze)),
        carve_parity(*old(maze)),
        all_connected(*old(maze), prim_origin()),
        old(maze).cell(prim_origin()) == Part::Open,
        east_open_at(*old(maze), 1),
    ensures
        built_ok(*final(maze), height, width, Pos { x: 1, y: 1 }),
{
    let start = Pos { x: 1, y: 1 };
    let ghost carved = *maze;
    proof {
        assert(has_east_exit(carved)) by {
            assert(1 <= 1usize < carved.height - 1 && east_open_at(carved, 1usize));
        }
    }
    let fin = pick_end(rng, maze);
    maze.change(&start, Part::Start);
    let ghost started = *maze;
    maze.change(&fin, Part::Finish);
    proof {
        lemma_finish_build_at_origin(carved, started, *maze, fin, height, width);
    }
}

/// Gathers the labelling argument for a carve that started at the
/// origin: the relabelled grid satisfies the full build contract.
proof fn lemma_finish_build_at_origin(
    carved: Maze,
    started: Maze,
    done: Maze,
    fin: Pos,
    height: usize,
    width: usize,
)
    requires
        carved.wf(),
        carved.height == height,
        carved.width == width,
        dims_ok(height, width),
        unlabelled(carved),
        carve_parity(carved),
        all_connected(carved, prim_origin()),
        carved.cell(prim_origin()) == Part::Open,
        carved.contains(fin),
        fin.x == width - 1,
        1 <= fin.y < height - 1,
        east_open_at(carved, fin.y),
        started.height == height,
        started.width == width,
        started.wf(),
        started.cell(prim_origin()) == Part::Start,
        forall|q: Pos|
            carved.contains(q) && q != prim_origin() ==> #[trigger] started.cell(q) == carved.cell(
                q,
            ),
        done.height == height,
        done.width == width,
        done.wf(),
        done.cell(fin) == Part::Finish,
        forall|q: Pos|
            started.contains(q) && q != fin ==> #[trigger] done.cell(q) == started.cell(q),
    ensures
        built_ok(done, height, width, Pos { x: 1, y: 1 }),
{
    let first = prim_origin();
    assert(fin != first);
    assert(crate::backtracker::adjacent_or_open_east(carved, fin)) by {
        assert(Pos { x: (carved.width - 1) as usize, y: fin.y } == fin);
    }
    crate::backtracker::lemma_label_endpoints(carved, started, done, first, first, fin);
    lemma_parity_no_open_block(done);
    assert(crate::carve::finish_ok(done, fin));
    assert(built_ok(done, height, width, first));
}

/// Build a maze by randomised Prim's algorithm: open the origin `(1, 1)`,
/// keep a working list of candidate walls, and repeatedly pop one at
/// random, carving through it when it separates a corridor from an
/// uncarved cell; then label the origin `Start` and place `Finish` on
/// the east boundary.
pub fn generate(seed: u64, height: usize, width: usize) -> (r: Result<Maze, BuildError>)
    requires
        height * width <= usize::MAX,
    ensures
        r is Ok <==> dims_ok(height, width),
        match r {
            Ok(m) => built_ok(m, height, width, Pos { x: 1, y: 1 }),
            Err(e) => e == BuildError::Dimensions,
        },
{
    if !(height >= 3 && width >= 3 && height % 2 == 1 && width % 2 == 1) {
        return Err(BuildError::Dimensions);
    }
    let mut maze = Maze::new_empty(height, width);
    let ghost m_empty = maze;
    let mut rng = Prng::new(seed);
    let start = Pos { x: 1, y: 1 };
    maze.open(&start);
    let mut walls = walls_for(&start, &maze);
    proof {
        lemma_prim_init(m_empty, maze, walls@, height, width);
    }
    while walls.len() > 0
        invariant
            start == (Pos { x: 1usize, y: 1usize }),
            prim_inv(maze, walls@, height, width),
        decreases closed_idxs(maze).len(), walls@.len(),
    {
        let ghost m0 = maze;
        let ghost w0 = walls@;
        let index = rng.next_below(walls.len());
        let wall = walls.remove(index);
        proof {
            lemma_prim_remove(m0, w0, index as int, height, width);
            lemma_prim_step_parts(maze, walls@, wall, height, width);
        }
        match find_next(&wall, &maze, &start) {
            Some(next) => {
                let ghost w1 = walls@;
                maze.open(&wall);
                let ghost m1 = maze;
                maze.open(&next);
                let mut more = walls_for(&next, &maze);
                let ghost a1 = more@;
                walls.append(&mut more);
                proof {
                    lemma_prim_carve(
                        m0,
                        m1,
                        maze,
                        w1,
                        walls@,
                        a1,
                        wall,
                        next,
                        height,
                        width,
                    );
                }
            },
            None => {
                proof {
                    lemma_prim_discard(maze, walls@, wall, height, width);
                }
            },
        }
    }
    proof {
        lemma_prim_done(maze, walls@, height, width);
    }
    place_endpoints_at_origin(&mut maze, &mut rng, height, width);
    Ok(maze)
}

} // verus!
