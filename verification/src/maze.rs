//! The grid: cell kinds, positions, row-major storage, movement.

use vstd::prelude::*;

use crate::shared::Direction;

verus! {

/// What a single cell of the grid holds. A cell holds exactly one kind at
/// any time.
#[derive(Copy, Clone, Debug, PartialEq, Eq, Structural)]
pub enum Part {
    Wall,
    Open,
    Start,
    Finish,
}

/// A position on the grid: `x` grows to the right, `y` grows downward.
#[derive(Copy, Clone, Debug, PartialEq, Eq, Structural)]
pub struct Pos {
    pub x: usize,
    pub y: usize,
}

impl Pos {
    /// The cell one row up. Callers check `y > 0` first.
    pub fn up(&self) -> (r: Pos)
        requires
            self.y > 0,
        ensures
            r.x == self.x && r.y == self.y - 1,
    {
        Pos { x: self.x, y: self.y - 1 }
    }

    /// The cell one row down. Callers check the lower bound first.
    pub fn down(&self) -> (r: Pos)
        requires
            self.y < usize::MAX,
        ensures
            r.x == self.x && r.y == self.y + 1,
    {
        Pos { x: self.x, y: self.y + 1 }
    }

    /// The cell one column to the left. Callers check `x > 0` first.
    pub fn left(&self) -> (r: Pos)
        requires
            self.x > 0,
        ensures
            r.x == self.x - 1 && r.y == self.y,
    {
        Pos { x: self.x - 1, y: self.y }
    }

    /// The cell one column to the right. Callers check the bound first.
    pub fn right(&self) -> (r: Pos)
        requires
            self.x < usize::MAX,
        ensures
            r.x == self.x + 1 && r.y == self.y,
    {
        Pos { x: self.x + 1, y: self.y }
    }
}

/// The spec-level neighbour of `p` in direction `dir`, without any bounds
/// check; meaningful only where `Maze::can_go` holds.
pub open spec fn step_to(p: Pos, dir: Direction) -> Pos {
    match dir {
        Direction::Up => Pos { x: p.x, y: (p.y - 1) as usize },
        Direction::Down => Pos { x: p.x, y: (p.y + 1) as usize },
        Direction::Left => Pos { x: (p.x - 1) as usize, y: p.y },
        Direction::Right => Pos { x: (p.x + 1) as usize, y: p.y },
    }
}

/// Two positions that differ by one step in one axis.
pub open spec fn adjacent(a: Pos, b: Pos) -> bool {
    ||| (a.x == b.x && (a.y + 1 == b.y || b.y + 1 == a.y))
    ||| (a.y == b.y && (a.x + 1 == b.x || b.x + 1 == a.x))
}

/// A rectangular grid of cells, stored row-major: the cell at `(x, y)`
/// lives at index `y * width + x` of `board`.
#[derive(Clone)]
pub struct Maze {
    pub height: usize,
    pub width: usize,
    pub board: Vec<Part>,
}

impl Maze {
    /// The storage matches the dimensions.
    pub open spec fn wf(self) -> bool {
        self.board@.len() == self.height * self.width
    }

    /// `p` lies on the grid.
    pub open spec fn contains(self, p: Pos) -> bool {
        p.x < self.width && p.y < self.height
    }

    /// Row-major index of `p`.
    pub open spec fn idx(self, p: Pos) -> int {
        p.y * self.width + p.x
    }

    /// The kind of the cell at `p`.
    pub open spec fn cell(self, p: Pos) -> Part {
        self.board@[self.idx(p)]
    }

    /// The position a row-major index stands for; the spec-level inverse
    /// of `idx`.
    pub open spec fn pos_of(self, i: int) -> Pos {
        Pos { x: (i % self.width as int) as usize, y: (i / self.width as int) as usize }
    }

    /// The bounds check `go` performs for each direction.
    pub open spec fn can_go(self, p: Pos, dir: Direction) -> bool {
        match dir {
            Direction::Up => p.y > 0,
            Direction::Down => p.y + 1 < self.height,
            Direction::Left => p.x > 0,
            Direction::Right => p.x + 1 < self.width,
        }
    }

    /// An all-`Wall` grid of the given dimensions.
    pub fn new_empty(height: usize, width: usize) -> (r: Maze)
        requires
            height * width <= usize::MAX,
        ensures
            r.height == height,
            r.width == width,
            r.wf(),
            forall|p: Pos| r.contains(p) ==> r.cell(p) == Part::Wall,
    {
        let length = height * width;
        let mut board: Vec<Part> = Vec::new();
        let mut i: usize = 0;
        while i < length
            invariant
                i <= length,
                board@.len() == i,
                forall|j: int| 0 <= j < i ==> board@[j] == Part::Wall,
            decreases length - i,
        {
            board.push(Part::Wall);
            i = i + 1;
        }
        let r = Maze { height, width, board };
        proof {
            assert forall|p: Pos| r.contains(p) implies r.cell(p) == Part::Wall by {
                lemma_idx_in_range(r.height as int, r.width as int, p.x as int, p.y as int);
            }
        }
        r
    }

    pub fn height(&self) -> (r: usize)
        ensures
            r == self.height,
    {
        self.height
    }

    /// The last row index.
    pub fn height_edge(&self) -> (r: usize)
        requires
            self.height > 0,
        ensures
            r == self.height - 1,
    {
        self.height - 1
    }

    pub fn width(&self) -> (r: usize)
        ensures
            r == self.width,
    {
        self.width
    }

    /// The last column index.
    pub fn width_edge(&self) -> (r: usize)
        requires
            self.width > 0,
        ensures
            r == self.width - 1,
    {
        self.width - 1
    }

    /// Row-major index of `p`; the inverse of `to_pos`.
    pub fn pos_to_index(&self, pos: &Pos) -> (r: usize)
        requires
            self.wf(),
            self.contains(*pos),
        ensures
            r == self.idx(*pos),
            r < self.board@.len(),
    {
        let n = self.board.len();
        proof {
            lemma_idx_in_range(
                self.height as int,
                self.width as int,
                pos.x as int,
                pos.y as int,
            );
            assert(self.idx(*pos) < n);
        }
        pos.y * self.width + pos.x
    }

    /// The position stored at `index`; the inverse of `pos_to_index`.
    pub fn to_pos(&self, index: usize) -> (r: Pos)
        requires
            self.wf(),
            self.width > 0,
            index < self.board@.len(),
        ensures
            self.contains(r),
            r.x == index as int % self.width as int,
            r.y == index as int / self.width as int,
            self.idx(r) == index,
    {
        proof {
            lemma_index_split(index as int, self.height as int, self.width as int);
        }
        let x = index % self.width;
        let y = index / self.width;
        Pos { x, y }
    }

    pub fn at(&self, pos: &Pos) -> (r: Part)
        requires
            self.wf(),
            self.contains(*pos),
        ensures
            r == self.cell(*pos),
    {
        let i = self.pos_to_index(pos);
        self.board[i]
    }

    pub fn is_open(&self, pos: &Pos) -> (r: bool)
        requires
            self.wf(),
            self.contains(*pos),
        ensures
            r == (self.cell(*pos) == Part::Open),
    {
        matches!(self.at(pos), Part::Open)
    }

    pub fn is_wall(&self, pos: &Pos) -> (r: bool)
        requires
            self.wf(),
            self.contains(*pos),
        ensures
            r == (self.cell(*pos) == Part::Wall),
    {
        matches!(self.at(pos), Part::Wall)
    }

    pub fn is_finished(&self, pos: &Pos) -> (r: bool)
        requires
            self.wf(),
            self.contains(*pos),
        ensures
            r == (self.cell(*pos) == Part::Finish),
    {
        matches!(self.at(pos), Part::Finish)
    }

    /// Set the cell at `pos` to `to`, leaving every other cell alone.
    pub fn change(&mut self, pos: &Pos, to: Part)
        requires
            old(self).wf(),
            old(self).contains(*pos),
        ensures
            final(self).height == old(self).height,
            final(self).width == old(self).width,
            final(self).wf(),
            final(self).board@ == old(self).board@.update(old(self).idx(*pos), to),
            final(self).cell(*pos) == to,
            forall|q: Pos|
                old(self).contains(q) && q != *pos ==> final(self).cell(q) == old(self).cell(q),
    {
        let index = self.pos_to_index(pos);
        self.board.set(index, to);
        proof {
            assert forall|q: Pos|
                old(self).contains(q) && q != *pos implies self.cell(q) == old(self).cell(q) by {
                lemma_idx_injective(old(self).height as int, old(self).width as int, *pos, q);
                lemma_idx_in_range(
                    old(self).height as int,
                    old(self).width as int,
                    q.x as int,
                    q.y as int,
                );
            }
        }
    }

    /// Carve the cell at `pos`: set it to `Open`.
    pub fn open(&mut self, pos: &Pos)
        requires
            old(self).wf(),
            old(self).contains(*pos),
        ensures
            final(self).height == old(self).height,
            final(self).width == old(self).width,
            final(self).wf(),
            final(self).board@ == old(self).board@.update(old(self).idx(*pos), Part::Open),
            final(self).cell(*pos) == Part::Open,
            forall|q: Pos|
                old(self).contains(q) && q != *pos ==> final(self).cell(q) == old(self).cell(q),
    {
        self.change(pos, Part::Open);
    }

    /// Whether some cell of the grid is the `Start` cell.
    pub open spec fn has_start(self) -> bool {
        exists|p: Pos| self.contains(p) && self.cell(p) == Part::Start
    }

    /// The unique `Start` cell, or `None` when the grid has none; when two
    /// exist the one at the smallest row-major index is reported.
    pub fn start_at(&self) -> (r: Option<Pos>)
        requires
            self.wf(),
        ensures
            match r {
                Some(p) => {
                    &&& self.contains(p)
                    &&& self.cell(p) == Part::Start
                    &&& forall|q: Pos|
                        self.contains(q) && self.cell(q) == Part::Start ==> self.idx(p) <= self.idx(
                            q,
                        )
                },
                None => !self.has_start(),
            },
    {
        if self.width == 0 {
            proof {
                assert forall|p: Pos| self.contains(p) implies self.cell(p) != Part::Start by {}
            }
            return None;
        }
        let mut i: usize = 0;
        let n = self.board.len();
        while i < n
            invariant
                self.wf(),
                self.width > 0,
                n == self.board@.len(),
                i <= n,
                forall|j: int| 0 <= j < i ==> self.board@[j] != Part::Start,
            decreases n - i,
        {
            if matches!(self.board[i], Part::Start) {
                let p = self.to_pos(i);
                proof {
                    assert forall|q: Pos|
                        self.contains(q) && self.cell(q) == Part::Start implies self.idx(p)
                        <= self.idx(q) by {
                        lemma_idx_in_range(
                            self.height as int,
                            self.width as int,
                            q.x as int,
                            q.y as int,
                        );
                    }
                }
                return Some(p);
            }
            i = i + 1;
        }
        proof {
            assert forall|p: Pos| self.contains(p) implies self.cell(p) != Part::Start by {
                lemma_idx_in_range(self.height as int, self.width as int, p.x as int, p.y as int);
            }
        }
        None
    }

    /// The neighbour of `pos` in direction `dir`, or `None` exactly when
    /// the step would leave the grid. The cell kind plays no role here.
    pub fn go(&self, pos: &Pos, dir: &Direction) -> (r: Option<Pos>)
        requires
            self.contains(*pos),
        ensures
            r == if self.can_go(*pos, *dir) {
                Some(step_to(*pos, *dir))
            } else {
                None::<Pos>
            },
            match r {
                Some(n) => self.contains(n) && adjacent(*pos, n),
                None => true,
            },
    {
        match dir {
            Direction::Up => {
                if pos.y > 0 {
                    Some(pos.up())
                } else {
                    None
                }
            },
            Direction::Down => {
                if pos.y < self.height - 1 {
                    Some(pos.down())
                } else {
                    None
                }
            },
            Direction::Right => {
                if pos.x < self.width - 1 {
                    Some(pos.right())
                } else {
                    None
                }
            },
            Direction::Left => {
                if pos.x > 0 {
                    Some(pos.left())
                } else {
                    None
                }
            },
        }
    }
}

/// One in-bounds step lands on the grid, adjacent to where it started.
pub proof fn lemma_step_adjacent(m: Maze, p: Pos, dir: Direction)
    requires
        m.contains(p),
        m.can_go(p, dir),
    ensures
        m.contains(step_to(p, dir)),
        adjacent(p, step_to(p, dir)),
        step_to(p, dir) != p,
{
}

/// Stepping back along the opposite direction undoes a step.
pub proof fn lemma_step_back(m: Maze, p: Pos, dir: Direction)
    requires
        m.contains(p),
        m.can_go(p, dir),
    ensures
        m.can_go(step_to(p, dir), crate::shared::opposite(dir)),
        step_to(step_to(p, dir), crate::shared::opposite(dir)) == p,
{
}

/// Two adjacent in-bounds cells are one in-bounds step apart.
pub proof fn lemma_adjacent_dir(m: Maze, a: Pos, b: Pos)
    requires
        m.contains(a),
        m.contains(b),
        adjacent(a, b),
    ensures
        exists|dir: Direction| #[trigger] m.can_go(a, dir) && step_to(a, dir) == b,
{
    if a.x == b.x && a.y + 1 == b.y {
        assert(m.can_go(a, Direction::Down) && step_to(a, Direction::Down) == b);
    } else if a.x == b.x && b.y + 1 == a.y {
        assert(m.can_go(a, Direction::Up) && step_to(a, Direction::Up) == b);
    } else if a.y == b.y && a.x + 1 == b.x {
        assert(m.can_go(a, Direction::Right) && step_to(a, Direction::Right) == b);
    } else {
        assert(m.can_go(a, Direction::Left) && step_to(a, Direction::Left) == b);
    }
}

/// A position inside the grid has its row-major index inside the storage.
pub proof fn lemma_idx_in_range(h: int, w: int, x: int, y: int)
    requires
        0 <= x < w,
        0 <= y < h,
    ensures
        0 <= y * w + x < h * w,
{
    assert(0 <= y * w + x < h * w) by (nonlinear_arith)
        requires
            0 <= x < w,
            0 <= y < h,
    ;
}

/// Splitting an index `0 <= i < h * w` by `/ w` and `% w` lands inside the
/// grid and recombines to `i`.
pub proof fn lemma_index_split(i: int, h: int, w: int)
    requires
        w > 0,
        0 <= i < h * w,
    ensures
        0 <= i % w < w,
        0 <= i / w < h,
        (i / w) * w + (i % w) == i,
{
    vstd::arithmetic::div_mod::lemma_fundamental_div_mod(i, w);
    vstd::arithmetic::div_mod::lemma_mod_bound(i, w);
    assert(i == w * (i / w) + i % w);
    assert((i / w) * w == w * (i / w)) by (nonlinear_arith);
    assert(0 <= i / w < h) by (nonlinear_arith)
        requires
            w > 0,
            0 <= i < h * w,
            i == w * (i / w) + i % w,
            0 <= i % w < w,
    ;
}

/// Distinct in-bounds positions have distinct row-major indices.
pub proof fn lemma_idx_injective(h: int, w: int, p: Pos, q: Pos)
    requires
        p.x < w && p.y < h,
        q.x < w && q.y < h,
        p != q,
    ensures
        p.y * w + p.x != q.y * w + q.x,
{
    assert(p.y * w + p.x != q.y * w + q.x) by (nonlinear_arith)
        requires
            0 <= p.x < w,
            0 <= p.y < h,
            0 <= q.x < w,
            0 <= q.y < h,
            !(p.x == q.x && p.y == q.y),
    ;
}

/// Round trip of the index bijection, position first: the index of an
/// in-bounds position splits back into that position.
pub proof fn lemma_pos_index_round_trip(h: int, w: int, x: int, y: int)
    requires
        0 <= x < w,
        0 <= y < h,
    ensures
        (y * w + x) % w == x,
        (y * w + x) / w == y,
{
    vstd::arithmetic::div_mod::lemma_fundamental_div_mod_converse_mod(y * w + x, w, y, x);
    vstd::arithmetic::div_mod::lemma_fundamental_div_mod_converse_div(y * w + x, w, y, x);
}

/// Carving a cell that is already `Open` changes nothing: `open` is
/// idempotent.
pub proof fn lemma_open_idempotent(m: Maze, p: Pos)
    requires
        m.wf(),
        m.contains(p),
        m.cell(p) == Part::Open,
    ensures
        m.board@.update(m.idx(p), Part::Open) == m.board@,
{
    lemma_idx_in_range(m.height as int, m.width as int, p.x as int, p.y as int);
    assert(m.board@.update(m.idx(p), Part::Open) =~= m.board@);
}

} // verus!
