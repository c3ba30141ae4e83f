//! Paths of 4-adjacent non-wall cells, and connectivity between cells.

use vstd::prelude::*;

use crate::maze::{adjacent, Maze, Part, Pos};

verus! {

/// A cell a walker may stand on: anything but a wall.
pub open spec fn passable(m: Maze, p: Pos) -> bool {
    m.cell(p) != Part::Wall
}

/// A non-empty run of in-bounds passable cells, each 4-adjacent to the
/// next.
pub open spec fn is_path(m: Maze, path: Seq<Pos>) -> bool {
    &&& path.len() > 0
    &&& forall|i: int|
        0 <= i < path.len() ==> m.contains(#[trigger] path[i]) && passable(m, path[i])
    &&& forall|i: int| 0 <= i < path.len() - 1 ==> adjacent(#[trigger] path[i], path[i + 1])
}

/// A path that starts at `a` and ends at `b`.
pub open spec fn path_between(m: Maze, a: Pos, b: Pos, path: Seq<Pos>) -> bool {
    is_path(m, path) && path.first() == a && path.last() == b
}

/// Some path joins `a` to `b`.
#[verifier::opaque]
pub open spec fn connected(m: Maze, a: Pos, b: Pos) -> bool {
    exists|path: Seq<Pos>| path_between(m, a, b, path)
}

/// Every passable cell of the grid can be reached from `origin`.
pub open spec fn all_connected(m: Maze, origin: Pos) -> bool {
    forall|p: Pos| m.contains(p) && passable(m, p) ==> #[trigger] connected(m, origin, p)
}

pub proof fn lemma_connected_self(m: Maze, a: Pos)
    requires
        m.contains(a),
        passable(m, a),
    ensures
        connected(m, a, a),
{
    reveal(connected);
    let path = seq![a];
    assert(path_between(m, a, a, path));
}

/// A path may grow by one adjacent passable cell.
pub proof fn lemma_connected_extend(m: Maze, a: Pos, b: Pos, c: Pos)
    requires
        connected(m, a, b),
        adjacent(b, c),
        m.contains(c),
        passable(m, c),
    ensures
        connected(m, a, c),
{
    reveal(connected);
    let path = choose|path: Seq<Pos>| path_between(m, a, b, path);
    let grown = path.push(c);
    assert forall|i: int| 0 <= i < grown.len() implies m.contains(#[trigger] grown[i]) && passable(
        m,
        grown[i],
    ) by {
        if i < path.len() {
            assert(grown[i] == path[i]);
        }
    }
    assert forall|i: int| 0 <= i < grown.len() - 1 implies adjacent(
        #[trigger] grown[i],
        grown[i + 1],
    ) by {
        if i < path.len() - 1 {
            assert(grown[i] == path[i] && grown[i + 1] == path[i + 1]);
        } else {
            assert(grown[i] == path.last() && grown[i + 1] == c);
        }
    }
    assert(path_between(m, a, c, grown));
}

/// Connectivity survives any change that makes no passable cell
/// impassable.
pub proof fn lemma_connected_monotone(m1: Maze, m2: Maze, a: Pos, b: Pos)
    requires
        m1.height == m2.height,
        m1.width == m2.width,
        forall|p: Pos| m1.contains(p) && passable(m1, p) ==> passable(m2, p),
        connected(m1, a, b),
    ensures
        connected(m2, a, b),
{
    reveal(connected);
    let path = choose|path: Seq<Pos>| path_between(m1, a, b, path);
    assert forall|i: int| 0 <= i < path.len() implies m2.contains(#[trigger] path[i]) && passable(
        m2,
        path[i],
    ) by {
        assert(m1.contains(path[i]) && passable(m1, path[i]));
    }
    assert(path_between(m2, a, b, path));
}

/// Connectivity is symmetric: walk the path backwards.
pub proof fn lemma_connected_sym(m: Maze, a: Pos, b: Pos)
    requires
        connected(m, a, b),
    ensures
        connected(m, b, a),
{
    reveal(connected);
    let path = choose|path: Seq<Pos>| path_between(m, a, b, path);
    let n = path.len() as int;
    let back = Seq::new(path.len(), |i: int| path[n - 1 - i]);
    assert forall|i: int| 0 <= i < back.len() - 1 implies adjacent(
        #[trigger] back[i],
        back[i + 1],
    ) by {
        assert(back[i] == path[n - 1 - i] && back[i + 1] == path[n - 2 - i]);
        assert(adjacent(path[n - 2 - i], path[n - 2 - i + 1]));
    }
    assert(back.first() == b && back.last() == a);
    assert(path_between(m, b, a, back));
}

/// Connectivity is transitive: join the two paths at `b`.
pub proof fn lemma_connected_trans(m: Maze, a: Pos, b: Pos, c: Pos)
    requires
        connected(m, a, b),
        connected(m, b, c),
    ensures
        connected(m, a, c),
{
    reveal(connected);
    let p1 = choose|path: Seq<Pos>| path_between(m, a, b, path);
    let p2 = choose|path: Seq<Pos>| path_between(m, b, c, path);
    let joined = p1 + p2.subrange(1, p2.len() as int);
    assert(joined.len() == p1.len() + p2.len() - 1);
    assert forall|i: int| 0 <= i < joined.len() implies m.contains(#[trigger] joined[i])
        && passable(m, joined[i]) by {
        if i < p1.len() {
            assert(joined[i] == p1[i]);
        } else {
            assert(joined[i] == p2[i - p1.len() + 1]);
        }
    }
    assert forall|i: int| 0 <= i < joined.len() - 1 implies adjacent(
        #[trigger] joined[i],
        joined[i + 1],
    ) by {
        if i < p1.len() - 1 {
            assert(joined[i] == p1[i] && joined[i + 1] == p1[i + 1]);
        } else if i == p1.len() - 1 {
            assert(joined[i] == p1.last());
            assert(joined[i + 1] == p2[1]);
            assert(adjacent(p2[0], p2[1]));
        } else {
            assert(joined[i] == p2[i - p1.len() + 1]);
            assert(joined[i + 1] == p2[i - p1.len() + 2]);
            assert(adjacent(p2[i - p1.len() + 1], p2[i - p1.len() + 2]));
        }
    }
    assert(joined.first() == a);
    assert(joined.last() == c) by {
        if p2.len() == 1 {
            assert(joined =~= p1);
        } else {
            assert(joined.last() == p2.last());
        }
    }
    assert(path_between(m, a, c, joined));
}

/// Reachability from one cell gives reachability from any other passable
/// cell: go back to the old origin first.
pub proof fn lemma_all_connected_rebase(m: Maze, a: Pos, b: Pos)
    requires
        all_connected(m, a),
        m.contains(b),
        passable(m, b),
    ensures
        all_connected(m, b),
{
    assert forall|p: Pos| m.contains(p) && passable(m, p) implies connected(m, b, p) by {
        assert(connected(m, a, b));
        assert(connected(m, a, p));
        lemma_connected_sym(m, a, b);
        lemma_connected_trans(m, b, a, p);
    }
}

/// Carving one cell open beside an already-reachable cell keeps the whole
/// grid reachable from the origin.
pub proof fn lemma_open_keeps_all_connected(m1: Maze, m2: Maze, origin: Pos, w: Pos, cur: Pos)
    requires
        m1.height == m2.height,
        m1.width == m2.width,
        m2.contains(w),
        passable(m2, w),
        forall|q: Pos| m1.contains(q) && q != w ==> m2.cell(q) == m1.cell(q),
        m1.contains(cur),
        passable(m1, cur),
        adjacent(cur, w),
        all_connected(m1, origin),
    ensures
        all_connected(m2, origin),
{
    assert forall|p: Pos| m1.contains(p) && passable(m1, p) implies passable(m2, p) by {
        if p != w {
            assert(m2.cell(p) == m1.cell(p));
        }
    }
    assert forall|p: Pos| m2.contains(p) && passable(m2, p) implies connected(m2, origin, p) by {
        if p == w {
            assert(connected(m1, origin, cur));
            lemma_connected_monotone(m1, m2, origin, cur);
            lemma_connected_extend(m2, origin, cur, w);
        } else {
            assert(m2.cell(p) == m1.cell(p));
            assert(passable(m1, p));
            lemma_connected_monotone(m1, m2, origin, p);
        }
    }
}

} // verus!
