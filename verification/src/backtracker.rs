//! The randomised depth-first carver: tunnel two cells at a time from an
//! explicit stack, backtracking when a cell has nowhere left to go.

use vstd::prelude::*;

use crate::carve::{
    built_ok, can_go2, carve_parity, carved_around, closed_idxs, dims_ok, fully_carved,
    lemma_carved_around_monotone, lemma_closed_finite, lemma_full_coverage, lemma_mod2_minus,
    lemma_open_keeps_closed, lemma_open_shrinks_closed, lemma_parity_no_open_block,
    lemma_two_step_geometry, odd_cell, two_away, unlabelled, BuildError,
};
use crate::connect::{
    all_connected, connected, lemma_all_connected_rebase, lemma_connected_extend,
    lemma_connected_monotone, lemma_connected_self, lemma_open_keeps_all_connected, passable,
};
use crate::maze::{step_to, Maze, Part, Pos};
use crate::rng::Prng;
use crate::shared::{all_directions, east_open_at, has_east_exit, pick_end, Direction};

verus! {

/// The opening in the west boundary, relabelled `Start` at the end.
pub open spec fn west_opening() -> Pos {
    Pos { x: 0, y: 1 }
}

/// The cell the carving starts from.
pub open spec fn carve_origin() -> Pos {
    Pos { x: 1, y: 1 }
}

/// Every stack entry is an open odd cell of the grid.
pub open spec fn stack_ok(m: Maze, s: Seq<Pos>) -> bool {
    forall|t: int|
        0 <= t < s.len() ==> m.contains(#[trigger] s[t]) && odd_cell(s[t]) && m.cell(s[t])
            == Part::Open
}

/// Every open odd cell that is no longer on the stack has been carved
/// around completely.
pub open spec fn closure_ok(m: Maze, s: Seq<Pos>) -> bool {
    forall|p: Pos|
        m.contains(p) && odd_cell(p) && #[trigger] m.cell(p) == Part::Open && !s.contains(p)
            ==> carved_around(m, p)
}

/// What holds of the grid and the stack throughout the carving loop.
#[verifier::opaque]
pub open spec fn bt_inv(m: Maze, s: Seq<Pos>, height: usize, width: usize) -> bool {
    &&& m.wf()
    &&& m.height == height
    &&& m.width == width
    &&& dims_ok(height, width)
    &&& unlabelled(m)
    &&& carve_parity(m)
    &&& m.cell(west_opening()) == Part::Open
    &&& m.cell(carve_origin()) == Part::Open
    &&& all_connected(m, carve_origin())
    &&& stack_ok(m, s)
    &&& closure_ok(m, s)
}

/// The drawn order the backtracker probes directions in: Fisher-Yates
/// over the four slots, one draw per swap, from draws `n0`, `n0 + 1`,
/// `n0 + 2`.
pub open spec fn shuffled_dirs(seed: u64, n0: nat) -> Seq<Direction> {
    let s0 = crate::shared::all_dirs();
    let j3 = crate::rng::draw_of(seed, n0) as int % 4;
    let s1 = s0.update(3, s0[j3]).update(j3, s0[3]);
    let j2 = crate::rng::draw_of(seed, (n0 + 1) as nat) as int % 3;
    let s2 = s1.update(2, s1[j2]).update(j2, s1[2]);
    let j1 = crate::rng::draw_of(seed, (n0 + 2) as nat) as int % 2;
    s2.update(1, s2[j1]).update(j1, s2[1])
}

/// The first slot of the drawn order whose two-cell probe from `pos`
/// stays on the grid and lands on a not-yet-open cell, or four when no
/// slot qualifies.
pub open spec fn first_carve_index(m: Maze, pos: Pos, dirs: Seq<Direction>, k: int) -> int
    decreases dirs.len() - k,
{
    if k < 0 || k >= dirs.len() {
        dirs.len() as int
    } else if can_go2(m, pos, dirs[k]) && m.cell(two_away(pos, dirs[k])) != Part::Open {
        k
    } else {
        first_carve_index(m, pos, dirs, k + 1)
    }
}

/// Swapping two slots keeps every element of the sequence present.
proof fn lemma_swap_keeps_contains(s1: Seq<Direction>, i: int, j: int)
    requires
        0 <= i < s1.len(),
        0 <= j < s1.len(),
    ensures
        forall|d: Direction|
            s1.contains(d) ==> #[trigger] s1.update(i, s1[j]).update(j, s1[i]).contains(d),
{
    let s2 = s1.update(i, s1[j]).update(j, s1[i]);
    assert forall|d: Direction| s1.contains(d) implies s2.contains(d) by {
        let k = choose|k: int| 0 <= k < s1.len() && s1[k] == d;
        if i == j {
            assert(s2[k] == d);
        } else if k == i {
            assert(s2[j] == d);
        } else if k == j {
            assert(s2[i] == d);
        } else {
            assert(s2[k] == d);
        }
    }
}

/// Swap two entries of the direction list.
fn swap_dirs(v: &mut Vec<Direction>, i: usize, j: usize)
    requires
        i < old(v)@.len(),
        j < old(v)@.len(),
    ensures
        final(v)@.len() == old(v)@.len(),
        final(v)@ == old(v)@.update(i as int, old(v)@[j as int]).update(j as int, old(v)@[i as int]),
        forall|d: Direction| old(v)@.contains(d) ==> final(v)@.contains(d),
{
    proof {
        lemma_swap_keeps_contains(v@, i as int, j as int);
    }
    let a = v[i];
    let b = v[j];
    v.set(i, b);
    v.set(j, a);
}

/// The four directions in an order drawn from the generator
/// (Fisher-Yates over the four slots); every direction still occurs.
fn shuffled_directions(rng: &mut Prng) -> (r: Vec<Direction>)
    ensures
        r@.len() == 4,
        r@ == shuffled_dirs(old(rng).seed(), old(rng).drawn()),
        forall|d: Direction| r@.contains(d),
        final(rng).seed() == old(rng).seed(),
        final(rng).drawn() == old(rng).drawn() + 3,
{
    let mut v = all_directions();
    proof {
        assert(v@[0] == Direction::Up);
        assert(v@[1] == Direction::Right);
        assert(v@[2] == Direction::Down);
        assert(v@[3] == Direction::Left);
        assert(v@.contains(Direction::Up));
        assert(v@.contains(Direction::Right));
        assert(v@.contains(Direction::Down));
        assert(v@.contains(Direction::Left));
    }
    let j3 = rng.next_below(4);
    swap_dirs(&mut v, 3, j3);
    let j2 = rng.next_below(3);
    swap_dirs(&mut v, 2, j2);
    let j1 = rng.next_below(2);
    swap_dirs(&mut v, 1, j1);
    v
}

/// Try the four directions in a drawn order and keep the first whose
/// two-cell probe from `pos` stays on the grid and lands on a cell that
/// is not yet open. `None` says that every in-bounds landing is open.
fn pick_neighbor(pos: &Pos, m: &Maze, rng: &mut Prng) -> (r: Option<Direction>)
    requires
        m.wf(),
        m.contains(*pos),
    ensures
        final(rng).seed() == old(rng).seed(),
        final(rng).drawn() == old(rng).drawn() + 3,
        ({
            let dirs = shuffled_dirs(old(rng).seed(), old(rng).drawn());
            let f = first_carve_index(*m, *pos, dirs, 0);
            if f < 4 {
                r == Some(dirs[f])
            } else {
                r is None
            }
        }),
        match r {
            Some(dir) => can_go2(*m, *pos, dir) && m.cell(two_away(*pos, dir)) != Part::Open,
            None => carved_around(*m, *pos),
        },
{
    let dirs = shuffled_directions(rng);
    let mut k: usize = 0;
    while k < 4
        invariant
            m.wf(),
            m.contains(*pos),
            dirs@.len() == 4,
            dirs@ == shuffled_dirs(old(rng).seed(), old(rng).drawn()),
            forall|d: Direction| dirs@.contains(d),
            k <= 4,
            rng.seed() == old(rng).seed(),
            rng.drawn() == old(rng).drawn() + 3,
            first_carve_index(*m, *pos, dirs@, 0) == first_carve_index(*m, *pos, dirs@, k as int),
        decreases 4 - k,
    {
        let dir = dirs[k];
        let mut took = false;
        if let Some(w) = m.go(pos, &dir) {
            if let Some(c) = m.go(&w, &dir) {
                if !m.is_open(&c) {
                    took = true;
                }
            }
        }
        if took {
            proof {
                assert(can_go2(*m, *pos, dirs@[k as int]) && m.cell(two_away(*pos, dirs@[k as int]))
                    != Part::Open);
                assert(first_carve_index(*m, *pos, dirs@, k as int) == k as int);
            }
            return Some(dir);
        }
        proof {
            assert(!(can_go2(*m, *pos, dirs@[k as int]) && m.cell(two_away(*pos, dirs@[k as int]))
                != Part::Open));
            assert(first_carve_index(*m, *pos, dirs@, k as int) == first_carve_index(
                *m,
                *pos,
                dirs@,
                k + 1int,
            ));
        }
        k = k + 1;
    }
    proof {
        assert(first_carve_index(*m, *pos, dirs@, 4int) == 4);
        assert forall|t: int|
            0 <= t < 4 implies (can_go2(*m, *pos, #[trigger] dirs@[t]) ==> m.cell(
            two_away(*pos, dirs@[t]),
        ) == Part::Open) by {
            assert(first_carve_index(*m, *pos, dirs@, 0) == 4);
            if can_go2(*m, *pos, dirs@[t]) && m.cell(two_away(*pos, dirs@[t])) != Part::Open {
                lemma_first_carve_hit(*m, *pos, dirs@, 0, t);
            }
        }
    }
    proof {
        assert forall|dir: Direction| can_go2(*m, *pos, dir) implies m.cell(
            #[trigger] two_away(*pos, dir),
        ) == Part::Open by {
            assert(dirs@.contains(dir));
            let t = choose|t: int| 0 <= t < dirs@.len() && dirs@[t] == dir;
        }
    }
    None
}

/// If slot `t` qualifies, the first qualifying index from `k` is at
/// most `t`.
proof fn lemma_first_carve_hit(m: Maze, pos: Pos, dirs: Seq<Direction>, k: int, t: int)
    requires
        0 <= k <= t < dirs.len(),
        can_go2(m, pos, dirs[t]) && m.cell(two_away(pos, dirs[t])) != Part::Open,
    ensures
        first_carve_index(m, pos, dirs, k) <= t,
    decreases t - k,
{
    if k < t && !(can_go2(m, pos, dirs[k]) && m.cell(two_away(pos, dirs[k])) != Part::Open) {
        lemma_first_carve_hit(m, pos, dirs, k + 1, t);
    }
}

/// One carving step from `pos`: the wall cell to tunnel through and the
/// landing cell two away, or `None` when `pos` is fully carved around.
pub fn step(maze: &Maze, rng: &mut Prng, pos: &Pos) -> (r: Option<(Pos, Pos)>)
    requires
        maze.wf(),
        maze.contains(*pos),
    ensures
        final(rng).seed() == old(rng).seed(),
        final(rng).drawn() == old(rng).drawn() + 3,
        ({
            let dirs = shuffled_dirs(old(rng).seed(), old(rng).drawn());
            let f = first_carve_index(*maze, *pos, dirs, 0);
            if f < 4 {
                r == Some((step_to(*pos, dirs[f]), two_away(*pos, dirs[f])))
            } else {
                r is None
            }
        }),
        match r {
            Some(pair) => exists|dir: Direction|
                #[trigger] can_go2(*maze, *pos, dir) && pair.0 == step_to(*pos, dir) && pair.1
                    == two_away(*pos, dir) && maze.cell(pair.1) != Part::Open,
            None => carved_around(*maze, *pos),
        },
{
    match pick_neighbor(pos, maze, rng) {
        Some(dir) => {
            let wall = match maze.go(pos, &dir) {
                Some(w) => w,
                None => {
                    proof {
                        assert(false);
                    }
                    *pos
                },
            };
            let next = match maze.go(&wall, &dir) {
                Some(c) => c,
                None => {
                    proof {
                        assert(false);
                    }
                    *pos
                },
            };
            proof {
                assert(can_go2(*maze, *pos, dir) && wall == step_to(*pos, dir) && next == two_away(
                    *pos,
                    dir,
                ) && maze.cell(next) != Part::Open);
            }
            Some((wall, next))
        },
        None => None,
    }
}

/// The carving invariant holds once the west opening and the origin have
/// been opened and the origin pushed.
proof fn lemma_bt_init(m0: Maze, m1: Maze, m2: Maze, s: Seq<Pos>, height: usize, width: usize)
    requires
        dims_ok(height, width),
        m0.wf(),
        m0.height == height,
        m0.width == width,
        forall|p: Pos| m0.contains(p) ==> #[trigger] m0.cell(p) == Part::Wall,
        m1.height == height,
        m1.width == width,
        m1.wf(),
        m1.cell(west_opening()) == Part::Open,
        forall|q: Pos|
            m0.contains(q) && q != west_opening() ==> #[trigger] m1.cell(q) == m0.cell(q),
        m2.height == height,
        m2.width == width,
        m2.wf(),
        m2.cell(carve_origin()) == Part::Open,
        forall|q: Pos|
            m1.contains(q) && q != carve_origin() ==> #[trigger] m2.cell(q) == m1.cell(q),
        s == seq![carve_origin()],
    ensures
        bt_inv(m2, s, height, width),
{
    reveal(bt_inv);
    let first = west_opening();
    let origin = carve_origin();
    assert(m2.cell(first) == Part::Open);
    lemma_connected_self(m2, origin);
    lemma_connected_extend(m2, origin, origin, first);
    assert forall|p: Pos| m2.contains(p) && passable(m2, p) implies connected(m2, origin, p) by {
        if p != first && p != origin {
            assert(m2.cell(p) == Part::Wall);
        }
    }
    assert forall|p: Pos|
        m2.contains(p) && #[trigger] m2.cell(p) == Part::Open implies p.x % 2 == 1 || p.y % 2
        == 1 by {
        if p != first && p != origin {
            assert(m2.cell(p) == Part::Wall);
        }
    }
    assert forall|p: Pos| m2.contains(p) implies (#[trigger] m2.cell(p) == Part::Wall || m2.cell(p)
        == Part::Open) by {
        if p != first && p != origin {
            assert(m2.cell(p) == Part::Wall);
        }
    }
    assert(s[0] == origin);
    assert(s.contains(origin));
    assert forall|p: Pos|
        m2.contains(p) && odd_cell(p) && #[trigger] m2.cell(p) == Part::Open && !s.contains(
            p,
        ) implies carved_around(m2, p) by {
        assert(p != origin);
        if p != first {
            assert(m2.cell(p) == Part::Wall);
        }
    }
}

/// One successful carve keeps the invariant and strictly shrinks the set
/// of cells still closed.
proof fn lemma_bt_carve(
    m0: Maze,
    m1: Maze,
    m2: Maze,
    s0: Seq<Pos>,
    s2: Seq<Pos>,
    current: Pos,
    wall: Pos,
    next: Pos,
    dir: Direction,
    height: usize,
    width: usize,
)
    requires
        bt_inv(m0, s0, height, width),
        s0.len() > 0,
        current == s0.last(),
        can_go2(m0, current, dir),
        wall == step_to(current, dir),
        next == two_away(current, dir),
        m0.cell(next) != Part::Open,
        m1.height == height,
        m1.width == width,
        m1.wf(),
        m1.board@ == m0.board@.update(m0.idx(wall), Part::Open),
        m1.cell(wall) == Part::Open,
        forall|q: Pos| m0.contains(q) && q != wall ==> #[trigger] m1.cell(q) == m0.cell(q),
        m2.height == height,
        m2.width == width,
        m2.wf(),
        m2.board@ == m1.board@.update(m1.idx(next), Part::Open),
        m2.cell(next) == Part::Open,
        forall|q: Pos| m1.contains(q) && q != next ==> #[trigger] m2.cell(q) == m1.cell(q),
        s2 == s0.drop_last().push(current).push(next),
    ensures
        bt_inv(m2, s2, height, width),
        closed_idxs(m2).len() < closed_idxs(m0).len(),
{
    reveal(bt_inv);
    let first = west_opening();
    let origin = carve_origin();
    assert(m0.contains(current) && odd_cell(current) && m0.cell(current) == Part::Open) by {
        assert(s0[s0.len() - 1] == current);
    }
    lemma_two_step_geometry(m0, current, dir);
    assert(next != wall && next != current && wall != current);
    // the measure shrinks
    if m0.cell(wall) != Part::Open {
        lemma_open_shrinks_closed(m0, m1, wall);
    } else {
        lemma_open_keeps_closed(m0, m1, wall);
    }
    assert(m1.cell(next) != Part::Open);
    lemma_open_shrinks_closed(m1, m2, next);
    lemma_closed_finite(m0);
    // the two fresh cells are reachable
    lemma_open_keeps_all_connected(m0, m1, origin, wall, current);
    lemma_open_keeps_all_connected(m1, m2, origin, next, wall);
    // every open cell stays open
    assert forall|q: Pos|
        m0.contains(q) && #[trigger] m0.cell(q) == Part::Open implies m2.cell(q) == Part::Open by {
        if q != wall && q != next {
            assert(m1.cell(q) == m0.cell(q));
        }
    }
    // endpoints of the west corridor stay open: the wall has positive
    // coordinates and the landing cell is odd, so neither is `first`
    assert(wall.x >= 1 && odd_cell(next));
    assert(m2.cell(first) == Part::Open);
    assert(m2.cell(origin) == Part::Open);
    // parity
    assert forall|p: Pos|
        m2.contains(p) && #[trigger] m2.cell(p) == Part::Open implies p.x % 2 == 1 || p.y % 2
        == 1 by {
        if p != wall && p != next {
            assert(m2.cell(p) == m1.cell(p) && m1.cell(p) == m0.cell(p));
        }
    }
    // still only walls and corridors
    assert forall|p: Pos| m2.contains(p) implies (#[trigger] m2.cell(p) == Part::Wall || m2.cell(p)
        == Part::Open) by {
        if p != wall && p != next {
            assert(m2.cell(p) == m1.cell(p) && m1.cell(p) == m0.cell(p));
        }
    }
    // the stack still holds open odd cells
    assert forall|t: int| 0 <= t < s2.len() implies m2.contains(#[trigger] s2[t]) && odd_cell(
        s2[t],
    ) && m2.cell(s2[t]) == Part::Open by {
        if t < s2.len() - 2 {
            assert(s2[t] == s0[t]);
            assert(m0.cell(s0[t]) == Part::Open);
        } else if t == s2.len() - 2 {
            assert(s2[t] == current);
        } else {
            assert(s2[t] == next);
        }
    }
    // cells away from the stack stay fully carved around
    assert forall|p: Pos|
        m2.contains(p) && odd_cell(p) && #[trigger] m2.cell(p) == Part::Open && !s2.contains(
            p,
        ) implies carved_around(m2, p) by {
        assert(s2[s2.len() - 1] == next);
        assert(s2[s2.len() - 2] == current);
        assert(s2.contains(next) && s2.contains(current));
        assert(p != next && p != current);
        assert(p != wall);
        assert(m2.cell(p) == m0.cell(p));
        assert(!s0.contains(p)) by {
            if s0.contains(p) {
                let t = choose|t: int| 0 <= t < s0.len() && s0[t] == p;
                if t < s0.len() - 1 {
                    assert(s2[t] == p);
                    assert(s2.contains(p));
                } else {
                    assert(p == current);
                }
            }
        }
        assert(carved_around(m0, p));
        lemma_carved_around_monotone(m0, m2, p);
    }
}

/// Backtracking from a cell with nothing left to carve keeps the
/// invariant.
proof fn lemma_bt_pop(m: Maze, s0: Seq<Pos>, current: Pos, height: usize, width: usize)
    requires
        bt_inv(m, s0, height, width),
        s0.len() > 0,
        current == s0.last(),
        carved_around(m, current),
    ensures
        bt_inv(m, s0.drop_last(), height, width),
{
    reveal(bt_inv);
    let s1 = s0.drop_last();
    assert forall|p: Pos|
        m.contains(p) && odd_cell(p) && #[trigger] m.cell(p) == Part::Open && !s1.contains(
            p,
        ) implies carved_around(m, p) by {
        if p != current {
            assert(!s0.contains(p)) by {
                if s0.contains(p) {
                    let t = choose|t: int| 0 <= t < s0.len() && s0[t] == p;
                    if t < s0.len() - 1 {
                        assert(s1[t] == p);
                        assert(s1.contains(p));
                    } else {
                        assert(p == current);
                    }
                }
            }
        }
    }
}

/// When the stack has emptied, every odd cell of the grid is open; in
/// particular the cell just west of the east boundary in row one, so the
/// endpoint placer will find a finish row.
proof fn lemma_bt_done(m: Maze, s: Seq<Pos>, height: usize, width: usize)
    requires
        bt_inv(m, s, height, width),
        s.len() == 0,
    ensures
        m.wf(),
        m.height == height,
        m.width == width,
        unlabelled(m),
        carve_parity(m),
        all_connected(m, carve_origin()),
        m.cell(west_opening()) == Part::Open,
        m.cell(carve_origin()) == Part::Open,
        fully_carved(m),
        m.cell(Pos { x: (width - 2) as usize, y: 1 }) == Part::Open,
        east_open_at(m, 1),
        has_east_exit(m),
{
    reveal(bt_inv);
    assert forall|p: Pos|
        m.contains(p) && odd_cell(p) && #[trigger] m.cell(p) == Part::Open implies carved_around(
        m,
        p,
    ) by {
        assert(!s.contains(p));
    }
    let e = Pos { x: (width - 2) as usize, y: 1 };
    lemma_mod2_minus(width as int);
    lemma_full_coverage(m, e);
    assert(east_open_at(m, 1));
    assert(has_east_exit(m)) by {
        assert(1 <= 1usize < m.height - 1 && east_open_at(m, 1usize));
    }
}

/// What the loop needs of the cell on top of the stack.
proof fn lemma_bt_stack_top(m: Maze, s: Seq<Pos>, height: usize, width: usize)
    requires
        bt_inv(m, s, height, width),
        s.len() > 0,
    ensures
        m.wf(),
        m.height == height,
        m.width == width,
        m.contains(s.last()),
        odd_cell(s.last()),
        m.cell(s.last()) == Part::Open,
{
    reveal(bt_inv);
    assert(s[s.len() - 1] == s.last());
}

/// After the start is labelled, the east exit found in row one is still
/// there: labelling touched only the west opening.
proof fn lemma_east_exit_kept(carved: Maze, started: Maze)
    requires
        carved.wf(),
        carved.height >= 3,
        carved.width >= 3,
        east_open_at(carved, 1),
        started.height == carved.height,
        started.width == carved.width,
        forall|q: Pos|
            carved.contains(q) && q != west_opening() ==> #[trigger] started.cell(q) == carved.cell(
                q,
            ),
    ensures
        has_east_exit(started),
{
    assert(east_open_at(started, 1)) by {
        assert(Pos { x: (carved.width - 2) as usize, y: 1 } != west_opening());
        assert(Pos { x: (carved.width - 1) as usize, y: 1 } != west_opening());
    }
    assert(1 <= 1usize < started.height - 1 && east_open_at(started, 1usize));
}

/// Gathers the whole labelling argument: from the carved grid, the grid
/// with `Start` placed, and the grid with `Finish` placed, conclude the
/// contract of a finished build.
proof fn lemma_finish_build(
    carved: Maze,
    started: Maze,
    done: Maze,
    fin: Pos,
    height: usize,
    width: usize,
)
    requires
        carved.wf(),
        carved.height == height,
        carved.width == width,
        dims_ok(height, width),
        unlabelled(carved),
        carve_parity(carved),
        all_connected(carved, carve_origin()),
        carved.cell(west_opening()) == Part::Open,
        carved.cell(carve_origin()) == Part::Open,
        started.height == height,
        started.width == width,
        started.wf(),
        started.cell(west_opening()) == Part::Start,
        forall|q: Pos|
            carved.contains(q) && q != west_opening() ==> #[trigger] started.cell(q) == carved.cell(
                q,
            ),
        started.contains(fin),
        fin.x == width - 1,
        1 <= fin.y < height - 1,
        east_open_at(started, fin.y),
        done.height == height,
        done.width == width,
        done.wf(),
        done.cell(fin) == Part::Finish,
        forall|q: Pos|
            started.contains(q) && q != fin ==> #[trigger] done.cell(q) == started.cell(q),
    ensures
        built_ok(done, height, width, Pos { x: 0, y: 1 }),
{
    let first = west_opening();
    assert(fin != first);
    assert(adjacent_or_open_east(carved, fin)) by {
        let west = Pos { x: (carved.width - 2) as usize, y: fin.y };
        assert(west != first);
        assert(Pos { x: (carved.width - 1) as usize, y: fin.y } == fin);
    }
    lemma_label_endpoints(carved, started, done, carve_origin(), first, fin);
    lemma_parity_no_open_block(done);
    assert(crate::carve::finish_ok(done, fin));
    assert(built_ok(done, height, width, first));
}

/// Build a maze by iterated randomised depth-first carving: start from
/// the origin `(1, 1)`, tunnel two cells towards unvisited odd cells,
/// backtrack when stuck; then label the west opening `(0, 1)` as `Start`
/// and place `Finish` on the east boundary.
pub fn generate(seed: u64, height: usize, width: usize) -> (r: Result<Maze, BuildError>)
    requires
        height * width <= usize::MAX,
    ensures
        r is Ok <==> dims_ok(height, width),
        match r {
            Ok(m) => built_ok(m, height, width, Pos { x: 0, y: 1 }),
            Err(e) => e == BuildError::Dimensions,
        },
{
    if !(height >= 3 && width >= 3 && height % 2 == 1 && width % 2 == 1) {
        return Err(BuildError::Dimensions);
    }
    let mut maze = Maze::new_empty(height, width);
    let ghost m_empty = maze;
    let mut rng = Prng::new(seed);
    let first = Pos { x: 0, y: 1 };
    let origin = Pos { x: 1, y: 1 };
    maze.open(&first);
    let ghost m_a = maze;
    maze.open(&origin);
    let mut visited: Vec<Pos> = Vec::new();
    visited.push(origin);
    proof {
        assert(visited@ =~= seq![carve_origin()]);
        lemma_bt_init(m_empty, m_a, maze, visited@, height, width);
    }
    while visited.len() > 0
        invariant
            bt_inv(maze, visited@, height, width),
        decreases closed_idxs(maze).len(), visited@.len(),
    {
        let ghost s0 = visited@;
        let ghost m0 = maze;
        proof {
            lemma_bt_stack_top(maze, visited@, height, width);
        }
        let current = match visited.pop() {
            Some(c) => c,
            None => {
                proof {
                    assert(false);
                }
                origin
            },
        };
        match step(&maze, &mut rng, &current) {
            Some(pair) => {
                let (wall, next) = pair;
                proof {
                    let dir = choose|dir: Direction|
                        #[trigger] can_go2(m0, current, dir) && wall == step_to(current, dir)
                            && next == two_away(current, dir) && m0.cell(next) != Part::Open;
                    lemma_two_step_geometry(m0, current, dir);
                }
                maze.open(&wall);
                let ghost m1 = maze;
                maze.open(&next);
                visited.push(current);
                visited.push(next);
                proof {
                    let dir = choose|dir: Direction|
                        #[trigger] can_go2(m0, current, dir) && wall == step_to(current, dir)
                            && next == two_away(current, dir) && m0.cell(next) != Part::Open;
                    assert(visited@ =~= s0.drop_last().push(current).push(next));
                    lemma_bt_carve(m0, m1, maze, s0, visited@, current, wall, next, dir, height, width);
                }
            },
            None => {
                proof {
                    lemma_bt_pop(m0, s0, current, height, width);
                    assert(visited@ =~= s0.drop_last());
                }
            },
        }
    }
    proof {
        lemma_bt_done(maze, visited@, height, width);
    }
    place_endpoints(&mut maze, &mut rng, height, width);
    Ok(maze)
}

/// Label the west opening as `Start` and an east-boundary cell as
/// `Finish` on a fully carved grid.
fn place_endpoints(maze: &mut Maze, rng: &mut Prng, height: usize, width: usize)
    requires
        old(maze).wf(),
        old(maze).height == height,
        old(maze).width == width,
        dims_ok(height, width),
        unlabelled(*old(maze)),
        carve_parity(*old(maze)),
        all_connected(*old(maze), carve_origin()),
        old(maze).cell(west_opening()) == Part::Open,
        old(maze).cell(carve_origin()) == Part::Open,
        east_open_at(*old(maze), 1),
    ensures
        built_ok(*final(maze), height, width, Pos { x: 0, y: 1 }),
{
    let first = Pos { x: 0, y: 1 };
    let ghost carved = *maze;
    maze.change(&first, Part::Start);
    let ghost started = *maze;
    proof {
        lemma_east_exit_kept(carved, started);
    }
    let fin = pick_end(rng, maze);
    maze.change(&fin, Part::Finish);
    proof {
        lemma_finish_build(carved, started, *maze, fin, height, width);
    }
}

/// Either the finish cell itself was carved open, or its west neighbour
/// was: what `pick_end` guarantees.
pub open spec fn adjacent_or_open_east(m: Maze, fin: Pos) -> bool {
    m.cell(fin) == Part::Open || m.cell(Pos { x: (m.width - 2) as usize, y: fin.y }) == Part::Open
}

/// Relabelling the start cell and then the finish cell keeps the carving
/// parity, creates exactly one `Start` and one `Finish`, and leaves every
/// passable cell reachable from the start.
pub proof fn lemma_label_endpoints(
    carved: Maze,
    started: Maze,
    done: Maze,
    origin: Pos,
    first: Pos,
    fin: Pos,
)
    requires
        carved.wf(),
        carved.height >= 3,
        carved.width >= 3,
        carved.contains(first),
        carved.contains(origin),
        carved.contains(fin),
        carved.cell(first) == Part::Open,
        carved.cell(origin) == Part::Open,
        unlabelled(carved),
        carve_parity(carved),
        all_connected(carved, origin),
        adjacent_or_open_east(carved, fin),
        fin.x == carved.width - 1,
        1 <= fin.y < carved.height - 1,
        fin != first,
        started.height == carved.height,
        started.width == carved.width,
        started.wf(),
        started.cell(first) == Part::Start,
        forall|q: Pos|
            carved.contains(q) && q != first ==> #[trigger] started.cell(q) == carved.cell(q),
        done.height == started.height,
        done.width == started.width,
        done.wf(),
        done.cell(fin) == Part::Finish,
        forall|q: Pos|
            started.contains(q) && q != fin ==> #[trigger] done.cell(q) == started.cell(q),
    ensures
        done.cell(first) == Part::Start,
        forall|q: Pos| done.contains(q) && q != first ==> #[trigger] done.cell(q) != Part::Start,
        crate::carve::finish_ok(done, fin),
        carve_parity(done),
        all_connected(done, first),
{
    assert(done.cell(first) == Part::Start);
    assert forall|q: Pos| done.contains(q) && q != first implies #[trigger] done.cell(q)
        != Part::Start by {
        if q != fin {
            assert(done.cell(q) == started.cell(q));
            assert(started.cell(q) == carved.cell(q));
        }
    }
    assert forall|q: Pos| done.contains(q) && q != fin implies #[trigger] done.cell(q)
        != Part::Finish by {
        if q != first {
            assert(done.cell(q) == started.cell(q));
            assert(started.cell(q) == carved.cell(q));
        }
    }
    assert forall|p: Pos|
        done.contains(p) && #[trigger] done.cell(p) == Part::Open implies p.x % 2 == 1 || p.y % 2
        == 1 by {
        assert(p != fin && p != first);
        assert(done.cell(p) == started.cell(p) && started.cell(p) == carved.cell(p));
    }
    assert forall|p: Pos|
        carved.contains(p) && passable(carved, p) implies passable(started, p) by {
        if p != first {
            assert(started.cell(p) == carved.cell(p));
        }
    }
    assert forall|p: Pos|
        started.contains(p) && passable(started, p) implies passable(done, p) by {
        if p != fin {
            assert(done.cell(p) == started.cell(p));
        }
    }
    assert forall|p: Pos| started.contains(p) && passable(started, p) implies connected(
        started,
        origin,
        p,
    ) by {
        if p != first {
            assert(started.cell(p) == carved.cell(p));
            assert(passable(carved, p));
        }
        lemma_connected_monotone(carved, started, origin, p);
    }
    assert(all_connected(started, origin));
    assert forall|p: Pos| done.contains(p) && passable(done, p) implies connected(
        done,
        origin,
        p,
    ) by {
        if p == fin && !passable(started, fin) {
            let west = Pos { x: (carved.width - 2) as usize, y: fin.y };
            assert(carved.cell(fin) != Part::Open) by {
                assert(started.cell(fin) == carved.cell(fin));
            }
            assert(carved.cell(west) == Part::Open);
            assert(passable(started, west)) by {
                if west != first {
                    assert(started.cell(west) == carved.cell(west));
                }
            }
            lemma_connected_monotone(started, done, origin, west);
            assert(crate::maze::adjacent(west, fin));
            lemma_connected_extend(done, origin, west, fin);
        } else {
            assert(passable(started, p));
            lemma_connected_monotone(started, done, origin, p);
        }
    }
    assert(all_connected(done, origin));
    lemma_all_connected_rebase(done, origin, first);
}

} // verus!
