//! What all three carving algorithms share: the parity discipline, the
//! coverage argument, and the measure that makes carving terminate.

use vstd::prelude::*;

use crate::maze::{lemma_idx_in_range, lemma_open_idempotent, step_to, Maze, Part, Pos};
use crate::shared::Direction;

verus! {

/// Why a build request is refused.
#[derive(Copy, Clone, Debug, PartialEq, Eq, Structural)]
pub enum BuildError {
    Dimensions,
}

/// Dimensions the carvers accept: at least three cells each way, and odd
/// in both directions so that the wall/corridor parity works out.
pub open spec fn dims_ok(height: usize, width: usize) -> bool {
    height >= 3 && width >= 3 && height % 2 == 1 && width % 2 == 1
}

/// Both coordinates odd: the cells the carvers tunnel between.
pub open spec fn odd_cell(p: Pos) -> bool {
    p.x % 2 == 1 && p.y % 2 == 1
}

/// During carving every `Open` cell keeps at least one odd coordinate;
/// cells with two even coordinates stay walls.
pub open spec fn carve_parity(m: Maze) -> bool {
    forall|p: Pos|
        m.contains(p) && #[trigger] m.cell(p) == Part::Open ==> p.x % 2 == 1 || p.y % 2 == 1
}

/// The grid is still being carved: every cell is a wall or a corridor,
/// no endpoint has been labelled yet.
pub open spec fn unlabelled(m: Maze) -> bool {
    forall|p: Pos|
        m.contains(p) ==> (#[trigger] m.cell(p) == Part::Wall || m.cell(p) == Part::Open)
}

/// No four `Open` cells form a 2-by-2 block.
#[verifier::opaque]
pub open spec fn no_open_block(m: Maze) -> bool {
    forall|p: Pos|
        m.contains(p) && p.x + 1 < m.width && p.y + 1 < m.height ==> !(#[trigger] m.cell(p)
            == Part::Open && m.cell(Pos { x: (p.x + 1) as usize, y: p.y }) == Part::Open && m.cell(
            Pos { x: p.x, y: (p.y + 1) as usize },
        ) == Part::Open && m.cell(Pos { x: (p.x + 1) as usize, y: (p.y + 1) as usize })
            == Part::Open)
}

/// In a grid that keeps the carving parity, a cell with two even
/// coordinates is never open.
pub proof fn lemma_even_even_wall(m: Maze, q: Pos)
    requires
        carve_parity(m),
        m.contains(q),
        q.x % 2 == 0,
        q.y % 2 == 0,
    ensures
        m.cell(q) != Part::Open,
{
}

/// The right neighbour of an odd coordinate is even.
proof fn lemma_odd_succ_even(x: int)
    requires
        x >= 0,
        x % 2 == 1,
    ensures
        (x + 1) % 2 == 0,
{
    vstd::arithmetic::div_mod::lemma_fundamental_div_mod(x, 2);
    vstd::arithmetic::div_mod::lemma_fundamental_div_mod_converse_mod(x + 1, 2, x / 2 + 1, 0);
}

/// Parity carving forbids 2-by-2 open blocks: one corner of any such
/// block has two even coordinates.
pub proof fn lemma_parity_no_open_block(m: Maze)
    requires
        carve_parity(m),
    ensures
        no_open_block(m),
{
    reveal(no_open_block);
    assert forall|p: Pos|
        m.contains(p) && p.x + 1 < m.width && p.y + 1 < m.height implies !(m.cell(p) == Part::Open
        && m.cell(Pos { x: (p.x + 1) as usize, y: p.y }) == Part::Open && m.cell(
        Pos { x: p.x, y: (p.y + 1) as usize },
    ) == Part::Open && m.cell(Pos { x: (p.x + 1) as usize, y: (p.y + 1) as usize })
        == Part::Open) by {
        vstd::arithmetic::div_mod::lemma_mod_bound(p.x as int, 2);
        vstd::arithmetic::div_mod::lemma_mod_bound(p.y as int, 2);
        let qx: usize = if p.x % 2 == 0 {
            p.x
        } else {
            (p.x + 1) as usize
        };
        let qy: usize = if p.y % 2 == 0 {
            p.y
        } else {
            (p.y + 1) as usize
        };
        if p.x % 2 == 1 {
            lemma_odd_succ_even(p.x as int);
        }
        if p.y % 2 == 1 {
            lemma_odd_succ_even(p.y as int);
        }
        let q = Pos { x: qx, y: qy };
        lemma_even_even_wall(m, q);
    }
}

/// The landing cell two steps from `p` in direction `dir`.
pub open spec fn two_away(p: Pos, dir: Direction) -> Pos {
    step_to(step_to(p, dir), dir)
}

/// Both the wall cell one step away and the landing cell two steps away
/// stay on the grid.
pub open spec fn can_go2(m: Maze, p: Pos, dir: Direction) -> bool {
    m.can_go(p, dir) && m.can_go(step_to(p, dir), dir)
}

/// Every in-bounds cell two steps from `p` is already open: carving from
/// `p` has nothing left to do.
pub open spec fn carved_around(m: Maze, p: Pos) -> bool {
    forall|dir: Direction| can_go2(m, p, dir) ==> m.cell(#[trigger] two_away(p, dir)) == Part::Open
}

/// All open odd cells are fully carved around.
pub open spec fn fully_carved(m: Maze) -> bool {
    forall|p: Pos|
        m.contains(p) && odd_cell(p) && #[trigger] m.cell(p) == Part::Open ==> carved_around(m, p)
}

/// In a fully carved grid with odd dimensions, openness spreads from the
/// origin `(1, 1)` to every odd cell.
pub proof fn lemma_full_coverage(m: Maze, p: Pos)
    requires
        m.wf(),
        dims_ok(m.height, m.width),
        m.cell(Pos { x: 1, y: 1 }) == Part::Open,
        fully_carved(m),
        m.contains(p),
        odd_cell(p),
    ensures
        m.cell(p) == Part::Open,
    decreases p.x + p.y,
{
    if p.x > 1 {
        let q = Pos { x: (p.x - 2) as usize, y: p.y };
        assert(q.x % 2 == 1);
        lemma_full_coverage(m, q);
        assert(can_go2(m, q, Direction::Right));
        assert(two_away(q, Direction::Right) == p);
    } else if p.y > 1 {
        let q = Pos { x: p.x, y: (p.y - 2) as usize };
        assert(q.y % 2 == 1);
        lemma_full_coverage(m, q);
        assert(can_go2(m, q, Direction::Down));
        assert(two_away(q, Direction::Down) == p);
    } else {
        assert(p == Pos { x: 1usize, y: 1usize });
    }
}

/// Exactly one coordinate is even: where a wall between two corridor
/// cells can lie.
pub open spec fn wall_cell(p: Pos) -> bool {
    (p.x % 2 == 0 && p.y % 2 == 1) || (p.x % 2 == 1 && p.y % 2 == 0)
}

/// The right neighbour of an even coordinate is odd.
pub proof fn lemma_even_succ_odd(x: int)
    requires
        x >= 0,
        x % 2 == 0,
    ensures
        (x + 1) % 2 == 1,
{
    vstd::arithmetic::div_mod::lemma_fundamental_div_mod(x, 2);
    vstd::arithmetic::div_mod::lemma_fundamental_div_mod_converse_mod(x + 1, 2, x / 2, 1);
}

/// The left neighbour of a positive even coordinate is odd.
pub proof fn lemma_even_pred_odd(x: int)
    requires
        x >= 1,
        x % 2 == 0,
    ensures
        (x - 1) % 2 == 1,
{
    vstd::arithmetic::div_mod::lemma_fundamental_div_mod(x, 2);
    vstd::arithmetic::div_mod::lemma_fundamental_div_mod_converse_mod(x - 1, 2, x / 2 - 1, 1);
}

/// Any 4-neighbour of an odd cell has exactly one even coordinate.
pub proof fn lemma_adjacent_parity(p: Pos, q: Pos)
    requires
        odd_cell(p),
        crate::maze::adjacent(p, q),
    ensures
        wall_cell(q),
{
    if p.x == q.x {
        if p.y + 1 == q.y {
            lemma_odd_succ_even(p.y as int);
        } else {
            lemma_odd_pred_even(p.y as int);
        }
    } else {
        if p.x + 1 == q.x {
            lemma_odd_succ_even(p.x as int);
        } else {
            lemma_odd_pred_even(p.x as int);
        }
    }
}

/// The two sides a candidate wall is probed across: east-west when its
/// column is even (the origin's column is odd), north-south otherwise.
pub open spec fn probe_axis(w: Pos) -> (Direction, Direction) {
    if w.x % 2 == 0 {
        (Direction::Left, Direction::Right)
    } else {
        (Direction::Up, Direction::Down)
    }
}

/// `w` currently separates a carved corridor from an uncarved cell along
/// its probe axis.
pub open spec fn separating(m: Maze, w: Pos) -> bool {
    &&& m.can_go(w, probe_axis(w).0)
    &&& m.can_go(w, probe_axis(w).1)
    &&& (m.cell(step_to(w, probe_axis(w).0)) == Part::Open) != (m.cell(
        step_to(w, probe_axis(w).1),
    ) == Part::Open)
}

/// The cells beside a wall-parity cell along its probe axis are odd.
pub proof fn lemma_probe_side_odd(m: Maze, w: Pos, dir: Direction)
    requires
        wall_cell(w),
        dir == probe_axis(w).0 || dir == probe_axis(w).1,
        m.can_go(w, dir),
    ensures
        odd_cell(step_to(w, dir)),
{
    vstd::arithmetic::div_mod::lemma_mod_bound(w.x as int, 2);
    vstd::arithmetic::div_mod::lemma_mod_bound(w.y as int, 2);
    if w.x % 2 == 0 {
        if dir == Direction::Left {
            lemma_even_pred_odd(w.x as int);
        } else {
            lemma_even_succ_odd(w.x as int);
        }
    } else {
        if dir == Direction::Up {
            lemma_even_pred_odd(w.y as int);
        } else {
            lemma_even_succ_odd(w.y as int);
        }
    }
}

/// A two-cell probe from an odd cell crosses a wall-parity cell whose
/// probe axis joins exactly the two odd endpoints.
pub proof fn lemma_probe_between(m: Maze, p: Pos, dir: Direction)
    requires
        m.contains(p),
        odd_cell(p),
        can_go2(m, p, dir),
    ensures
        wall_cell(step_to(p, dir)),
        ({
            let w = step_to(p, dir);
            let a = probe_axis(w).0;
            let b = probe_axis(w).1;
            &&& m.can_go(w, a) && m.can_go(w, b)
            &&& (step_to(w, a) == p && step_to(w, b) == two_away(p, dir)) || (step_to(w, b) == p
                && step_to(w, a) == two_away(p, dir))
        }),
{
    lemma_two_step_geometry(m, p, dir);
    lemma_adjacent_parity(p, step_to(p, dir));
    vstd::arithmetic::div_mod::lemma_mod_bound(p.x as int, 2);
    vstd::arithmetic::div_mod::lemma_mod_bound(p.y as int, 2);
    match dir {
        Direction::Up => {
            lemma_odd_pred_even(p.y as int);
        },
        Direction::Down => {
            lemma_odd_succ_even(p.y as int);
        },
        Direction::Left => {
            lemma_odd_pred_even(p.x as int);
        },
        Direction::Right => {
            lemma_odd_succ_even(p.x as int);
        },
    }
}

/// Shifting down by two keeps the parity.
pub proof fn lemma_mod2_minus(y: int)
    requires
        y >= 2,
    ensures
        (y - 2) % 2 == y % 2,
{
    vstd::arithmetic::div_mod::lemma_fundamental_div_mod(y, 2);
    vstd::arithmetic::div_mod::lemma_mod_bound(y, 2);
    vstd::arithmetic::div_mod::lemma_fundamental_div_mod_converse_mod(y - 2, 2, y / 2 - 1, y % 2);
}

/// Shifting up by two keeps the parity.
pub proof fn lemma_mod2_plus(y: int)
    requires
        y >= 0,
    ensures
        (y + 2) % 2 == y % 2,
{
    vstd::arithmetic::div_mod::lemma_fundamental_div_mod(y, 2);
    vstd::arithmetic::div_mod::lemma_mod_bound(y, 2);
    vstd::arithmetic::div_mod::lemma_fundamental_div_mod_converse_mod(y + 2, 2, y / 2 + 1, y % 2);
}

/// Where a two-cell probe from an odd cell lands: both cells stay on the
/// grid, the chain is 4-adjacent, the middle cell has exactly the parity
/// of a wall between corridors, and the landing cell is odd again.
pub proof fn lemma_two_step_geometry(m: Maze, p: Pos, dir: Direction)
    requires
        m.contains(p),
        can_go2(m, p, dir),
    ensures
        m.contains(step_to(p, dir)),
        m.contains(two_away(p, dir)),
        crate::maze::adjacent(p, step_to(p, dir)),
        crate::maze::adjacent(step_to(p, dir), two_away(p, dir)),
        step_to(p, dir) != p,
        two_away(p, dir) != p,
        two_away(p, dir) != step_to(p, dir),
        odd_cell(p) ==> !odd_cell(step_to(p, dir)) && (step_to(p, dir).x % 2 == 1 || step_to(
            p,
            dir,
        ).y % 2 == 1) && odd_cell(two_away(p, dir)),
        odd_cell(p) ==> step_to(p, dir).x >= 1 && step_to(p, dir).y >= 1,
{
    if odd_cell(p) {
        match dir {
            Direction::Up => {
                lemma_odd_pred_even(p.y as int);
                lemma_mod2_minus(p.y as int);
            },
            Direction::Down => {
                lemma_odd_succ_even(p.y as int);
                lemma_mod2_plus(p.y as int);
            },
            Direction::Left => {
                lemma_odd_pred_even(p.x as int);
                lemma_mod2_minus(p.x as int);
            },
            Direction::Right => {
                lemma_odd_succ_even(p.x as int);
                lemma_mod2_plus(p.x as int);
            },
        }
    }
}

/// The left neighbour of an odd coordinate is even.
proof fn lemma_odd_pred_even(x: int)
    requires
        x >= 1,
        x % 2 == 1,
    ensures
        (x - 1) % 2 == 0,
{
    vstd::arithmetic::div_mod::lemma_fundamental_div_mod(x, 2);
    vstd::arithmetic::div_mod::lemma_fundamental_div_mod_converse_mod(x - 1, 2, x / 2, 0);
}

/// A cell keeping `carved_around` keeps it when more cells are carved
/// open.
pub proof fn lemma_carved_around_monotone(m1: Maze, m2: Maze, p: Pos)
    requires
        m1.contains(p),
        m1.height == m2.height,
        m1.width == m2.width,
        forall|q: Pos|
            m1.contains(q) && #[trigger] m1.cell(q) == Part::Open ==> m2.cell(q) == Part::Open,
        carved_around(m1, p),
    ensures
        carved_around(m2, p),
{
    assert forall|dir: Direction| can_go2(m2, p, dir) implies m2.cell(
        #[trigger] two_away(p, dir),
    ) == Part::Open by {
        assert(can_go2(m1, p, dir));
        lemma_two_step_geometry(m1, p, dir);
        assert(m1.cell(two_away(p, dir)) == Part::Open);
    }
}

/// What every carver hands back: a well-formed grid of the requested
/// dimensions with exactly one `Start` (at `start`), exactly one `Finish`
/// on the east boundary column, the carving parity (hence no 2-by-2 open
/// block), and every non-wall cell reachable from `Start`.
pub open spec fn finish_ok(m: Maze, f: Pos) -> bool {
    &&& m.contains(f)
    &&& f.x == m.width - 1
    &&& 1 <= f.y < m.height - 1
    &&& m.cell(f) == Part::Finish
    &&& forall|q: Pos| m.contains(q) && q != f ==> #[trigger] m.cell(q) != Part::Finish
}

pub open spec fn built_ok(m: Maze, height: usize, width: usize, start: Pos) -> bool {
    &&& m.height == height
    &&& m.width == width
    &&& m.wf()
    &&& m.contains(start)
    &&& m.cell(start) == Part::Start
    &&& forall|q: Pos| m.contains(q) && q != start ==> #[trigger] m.cell(q) != Part::Start
    &&& exists|f: Pos| finish_ok(m, f)
    &&& carve_parity(m)
    &&& no_open_block(m)
    &&& crate::connect::all_connected(m, start)
}

/// The indices of the cells still to carve; its size is the measure that
/// shrinks at every carve.
pub open spec fn closed_idxs(m: Maze) -> Set<int> {
    Set::new(|i: int| 0 <= i < m.board@.len() && m.board@[i] != Part::Open)
}

pub proof fn lemma_closed_finite(m: Maze)
    ensures
        closed_idxs(m).finite(),
        closed_idxs(m).len() <= m.board@.len(),
{
    let whole = vstd::set_lib::set_int_range(0, m.board@.len() as int);
    vstd::set_lib::lemma_int_range(0, m.board@.len() as int);
    assert(closed_idxs(m).subset_of(whole));
    vstd::set_lib::lemma_len_subset(closed_idxs(m), whole);
}

/// Opening a cell that was not yet open strictly shrinks the measure.
pub proof fn lemma_open_shrinks_closed(m1: Maze, m2: Maze, p: Pos)
    requires
        m1.wf(),
        m1.contains(p),
        m1.cell(p) != Part::Open,
        m2.board@ == m1.board@.update(m1.idx(p), Part::Open),
    ensures
        closed_idxs(m2).len() < closed_idxs(m1).len(),
{
    let k = m1.idx(p);
    lemma_idx_in_range(m1.height as int, m1.width as int, p.x as int, p.y as int);
    assert(closed_idxs(m2) =~= closed_idxs(m1).remove(k));
    lemma_closed_finite(m1);
    vstd::set::axiom_set_remove_len(closed_idxs(m1), k);
    assert(closed_idxs(m1).contains(k));
}

/// Opening a cell that is already open leaves the measure alone.
pub proof fn lemma_open_keeps_closed(m1: Maze, m2: Maze, p: Pos)
    requires
        m1.wf(),
        m1.contains(p),
        m1.cell(p) == Part::Open,
        m2.board@ == m1.board@.update(m1.idx(p), Part::Open),
    ensures
        closed_idxs(m2) == closed_idxs(m1),
{
    lemma_open_idempotent(m1, p);
    assert(m2.board@ == m1.board@);
    assert(closed_idxs(m2) =~= closed_idxs(m1));
}

} // verus!
