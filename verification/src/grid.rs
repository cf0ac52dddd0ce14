//! The board geometry: directions, points, the fenced rectangle, and walks through open cells.

use vstd::prelude::*;

verus! {

/// A move direction. The canonical order (used by the UI and the prompt) is up, down, left, right.
#[derive(Clone, Copy, Debug, PartialEq, Eq, Hash, Structural)]
pub enum Dir {
    Up,
    Down,
    Left,
    Right,
}

/// The direction at position `k` of the canonical order up, down, left, right.
pub open spec fn dir_at(k: int) -> Dir {
    if k == 0 {
        Dir::Up
    } else if k == 1 {
        Dir::Down
    } else if k == 2 {
        Dir::Left
    } else {
        Dir::Right
    }
}

impl Dir {
    /// Canonical order used by the UI and the prompt: up, down, left, right.
    pub const ALL: [Dir; 4] = [Dir::Up, Dir::Down, Dir::Left, Dir::Right];

    pub open spec fn spec_index(self) -> int {
        match self {
            Dir::Up => 0,
            Dir::Down => 1,
            Dir::Left => 2,
            Dir::Right => 3,
        }
    }

    pub open spec fn dx(self) -> int {
        match self {
            Dir::Left => -1,
            Dir::Right => 1,
            _ => 0,
        }
    }

    pub open spec fn dy(self) -> int {
        match self {
            Dir::Up => -1,
            Dir::Down => 1,
            _ => 0,
        }
    }

    pub open spec fn spec_name(self) -> Seq<char> {
        match self {
            Dir::Up => "up"@,
            Dir::Down => "down"@,
            Dir::Left => "left"@,
            Dir::Right => "right"@,
        }
    }

    /// Position of the direction in the canonical order.
    pub fn index(self) -> (i: usize)
        ensures
            i == self.spec_index(),
            dir_at(i as int) == self,
    {
        match self {
            Dir::Up => 0,
            Dir::Down => 1,
            Dir::Left => 2,
            Dir::Right => 3,
        }
    }

    /// The direction at position `k` of the canonical order.
    pub fn from_index(k: usize) -> (d: Dir)
        requires
            k < 4,
        ensures
            d == dir_at(k as int),
            d.spec_index() == k,
    {
        if k == 0 {
            Dir::Up
        } else if k == 1 {
            Dir::Down
        } else if k == 2 {
            Dir::Left
        } else {
            Dir::Right
        }
    }

    /// The `(dx, dy)` of one step; `y` grows downwards.
    pub fn delta(self) -> (r: (i32, i32))
        ensures
            r.0 == self.dx(),
            r.1 == self.dy(),
    {
        match self {
            Dir::Up => (0, -1),
            Dir::Down => (0, 1),
            Dir::Left => (-1, 0),
            Dir::Right => (1, 0),
        }
    }

    pub fn name(self) -> (s: &'static str)
        ensures
            s@ == self.spec_name(),
    {
        match self {
            Dir::Up => "up",
            Dir::Down => "down",
            Dir::Left => "left",
            Dir::Right => "right",
        }
    }
}

/// An order of the four directions: each one once.
pub open spec fn is_order(o: Seq<Dir>) -> bool {
    o.len() == 4 && o.no_duplicates()
}

/// Every direction is one of the four of the canonical order.
pub proof fn lemma_dir_at_index(d: Dir)
    ensures
        dir_at(d.spec_index()) == d,
        0 <= d.spec_index() < 4,
{
}

#[derive(Clone, Copy, Debug, PartialEq, Eq, Hash, Structural)]
pub struct Point {
    pub x: i32,
    pub y: i32,
}

impl Point {
    /// The point one step away in direction `d`.
    pub open spec fn moved(self, d: Dir) -> Point {
        Point { x: (self.x + d.dx()) as i32, y: (self.y + d.dy()) as i32 }
    }

    /// One step in any direction stays inside the `i32` range.
    pub open spec fn steppable(self) -> bool {
        i32::MIN < self.x < i32::MAX && i32::MIN < self.y < i32::MAX
    }

    pub fn step(self, dir: Dir) -> (p: Point)
        requires
            self.steppable(),
        ensures
            p == self.moved(dir),
            p.x == self.x + dir.dx(),
            p.y == self.y + dir.dy(),
    {
        let (dx, dy) = dir.delta();
        Point { x: self.x + dx, y: self.y + dy }
    }
}

/// `q` is one step away from `p`.
pub open spec fn neighbors(p: Point, q: Point) -> bool {
    ||| q == p.moved(Dir::Up)
    ||| q == p.moved(Dir::Down)
    ||| q == p.moved(Dir::Left)
    ||| q == p.moved(Dir::Right)
}

/// Manhattan distance.
pub open spec fn manhattan(a: Point, b: Point) -> int {
    (if a.x >= b.x { a.x - b.x } else { b.x - a.x }) + (if a.y >= b.y { a.y - b.y } else { b.y - a.y })
}

/// Manhattan distance, computed without overflow.
pub fn manhattan_exec(a: Point, b: Point) -> (d: i64)
    ensures
        d == manhattan(a, b),
{
    let dx: i64 = if a.x >= b.x { a.x as i64 - b.x as i64 } else { b.x as i64 - a.x as i64 };
    let dy: i64 = if a.y >= b.y { a.y as i64 - b.y as i64 } else { b.y as i64 - a.y as i64 };
    dx + dy
}

/// The fenced `w` x `h` rectangle; cells are numbered row by row.
#[derive(Clone, Copy)]
pub struct Board {
    pub w: i32,
    pub h: i32,
}

impl Board {
    /// The dimensions fit the `i32` cell numbering.
    pub open spec fn wf(self) -> bool {
        self.w >= 0 && self.h >= 0 && self.w * self.h <= i32::MAX
    }

    pub open spec fn spec_contains(self, p: Point) -> bool {
        0 <= p.x < self.w && 0 <= p.y < self.h
    }

    pub open spec fn spec_idx(self, p: Point) -> int {
        p.y * self.w + p.x
    }

    pub open spec fn spec_cells(self) -> int {
        self.w * self.h
    }

    /// The point of cell number `i`.
    pub open spec fn point_of(self, i: int) -> Point {
        Point { x: (i % (self.w as int)) as i32, y: (i / (self.w as int)) as i32 }
    }

    pub fn new(width: usize, height: usize) -> (b: Board)
        requires
            width * height <= i32::MAX,
            width <= i32::MAX,
            height <= i32::MAX,
        ensures
            b.w == width,
            b.h == height,
            b.wf(),
    {
        Board { w: width as i32, h: height as i32 }
    }

    #[inline]
    pub fn contains(self, p: Point) -> (r: bool)
        ensures
            r == self.spec_contains(p),
    {
        p.x >= 0 && p.x < self.w && p.y >= 0 && p.y < self.h
    }

    #[inline]
    pub fn idx(self, p: Point) -> (i: usize)
        requires
            self.wf(),
            self.spec_contains(p),
        ensures
            i == self.spec_idx(p),
            i < self.spec_cells(),
    {
        proof {
            lemma_idx_bounds(self, p);
        }
        (p.y * self.w + p.x) as usize
    }

    pub fn cells(self) -> (n: usize)
        requires
            self.wf(),
        ensures
            n == self.spec_cells(),
    {
        (self.w * self.h) as usize
    }
}

pub proof fn lemma_idx_bounds(b: Board, p: Point)
    requires
        b.wf(),
        b.spec_contains(p),
    ensures
        0 <= b.spec_idx(p) < b.spec_cells(),
        b.spec_idx(p) <= i32::MAX,
{
    let (x, y, w, h) = (p.x as int, p.y as int, b.w as int, b.h as int);
    assert(0 <= y * w + x < w * h) by (nonlinear_arith)
        requires
            0 <= x < w,
            0 <= y < h,
    ;
}

/// Cell numbers tell in-board points apart, and `point_of` undoes `spec_idx`.
pub proof fn lemma_idx_inverse(b: Board, p: Point)
    requires
        b.wf(),
        b.spec_contains(p),
    ensures
        b.point_of(b.spec_idx(p)) == p,
{
    vstd::arithmetic::div_mod::lemma_fundamental_div_mod_converse(
        b.spec_idx(p),
        b.w as int,
        p.y as int,
        p.x as int,
    );
}

pub proof fn lemma_idx_injective(b: Board, p: Point, q: Point)
    requires
        b.wf(),
        b.spec_contains(p),
        b.spec_contains(q),
        b.spec_idx(p) == b.spec_idx(q),
    ensures
        p == q,
{
    lemma_idx_inverse(b, p);
    lemma_idx_inverse(b, q);
}

/// Every cell number belongs to an in-board point.
pub proof fn lemma_point_of(b: Board, i: int)
    requires
        b.wf(),
        0 <= i < b.spec_cells(),
    ensures
        b.spec_contains(b.point_of(i)),
        b.spec_idx(b.point_of(i)) == i,
{
    let w = b.w as int;
    let h = b.h as int;
    assert(w > 0) by (nonlinear_arith)
        requires
            0 <= i < w * h,
            h >= 0,
    ;
    vstd::arithmetic::div_mod::lemma_fundamental_div_mod(i, w);
    let q = i / w;
    let r = i % w;
    assert(0 <= r < w);
    assert(0 <= q < h) by (nonlinear_arith)
        requires
            i == w * q + r,
            0 <= r < w,
            0 <= i < w * h,
            w > 0,
    ;
    assert(q * w == w * q) by (nonlinear_arith);
}

/// The cell of `p` is free (in the board and not blocked).
pub open spec fn open_at(b: Board, blocked: Seq<bool>, p: Point) -> bool {
    b.spec_contains(p) && !blocked[b.spec_idx(p)]
}

pub open spec fn link(path: Seq<Point>, i: int) -> bool {
    neighbors(path[i], path[i + 1])
}

/// `path` moves one step at a time, and every point after the first is open.
pub open spec fn is_walk(b: Board, blocked: Seq<bool>, path: Seq<Point>) -> bool {
    &&& path.len() >= 1
    &&& forall|i: int| 0 <= i < path.len() - 1 ==> #[trigger] link(path, i)
    &&& forall|i: int| 1 <= i < path.len() ==> open_at(b, blocked, #[trigger] path[i])
}

/// A walk of `n` steps leads from `s` to `p`.
pub open spec fn walk_of(b: Board, blocked: Seq<bool>, s: Point, p: Point, n: nat) -> bool {
    exists|path: Seq<Point>|
        #[trigger] is_walk(b, blocked, path) && path.len() == n + 1 && path[0] == s && path.last()
            == p
}

/// `p` can be reached from `s` through open cells (the start itself need not be open).
pub open spec fn reaches(b: Board, blocked: Seq<bool>, s: Point, p: Point) -> bool {
    exists|n: nat| #[trigger] walk_of(b, blocked, s, p, n)
}

/// The in-board cells reachable from `s` (with `s` itself when it is in the board).
pub open spec fn reach_set(b: Board, blocked: Seq<bool>, s: Point) -> Set<Point> {
    Set::new(|p: Point| b.spec_contains(p) && reaches(b, blocked, s, p))
}

pub proof fn lemma_walk_start(b: Board, blocked: Seq<bool>, s: Point)
    ensures
        walk_of(b, blocked, s, s, 0),
        reaches(b, blocked, s, s),
{
    let path = seq![s];
    assert(is_walk(b, blocked, path));
    assert(walk_of(b, blocked, s, s, 0));
}

/// A walk to `p` followed by one step onto an open neighbour is a walk.
pub proof fn lemma_walk_extend(b: Board, blocked: Seq<bool>, s: Point, p: Point, n: nat, q: Point)
    requires
        walk_of(b, blocked, s, p, n),
        neighbors(p, q),
        open_at(b, blocked, q),
    ensures
        walk_of(b, blocked, s, q, n + 1),
        reaches(b, blocked, s, q),
{
    let path = choose|path: Seq<Point>|
        #[trigger] is_walk(b, blocked, path) && path.len() == n + 1 && path[0] == s && path.last()
            == p;
    let path2 = path.push(q);
    assert forall|i: int| 0 <= i < path2.len() - 1 implies #[trigger] link(path2, i) by {
        if i < path.len() - 1 {
            assert(link(path, i));
        }
    }
    assert forall|i: int| 1 <= i < path2.len() implies open_at(b, blocked, #[trigger] path2[i]) by {
        if i < path.len() {
            assert(path2[i] == path[i]);
        }
    }
    assert(is_walk(b, blocked, path2));
    assert(walk_of(b, blocked, s, q, n + 1));
}

/// The last step of a walk of `n + 1` steps comes from an open neighbour reached in `n` steps
/// (or from the start when `n == 0`).
pub proof fn lemma_walk_last_step(b: Board, blocked: Seq<bool>, s: Point, p: Point, n: nat) -> (m: Point)
    requires
        walk_of(b, blocked, s, p, n + 1),
    ensures
        walk_of(b, blocked, s, m, n),
        neighbors(m, p),
        open_at(b, blocked, p),
        n == 0 ==> m == s,
        n > 0 ==> open_at(b, blocked, m),
{
    let path = choose|path: Seq<Point>|
        #[trigger] is_walk(b, blocked, path) && path.len() == n + 2 && path[0] == s && path.last()
            == p;
    let prefix = path.drop_last();
    assert(link(path, n as int));
    assert(open_at(b, blocked, path[n + 1int]));
    if n > 0 {
        assert(open_at(b, blocked, path[n as int]));
    }
    assert forall|i: int| 0 <= i < prefix.len() - 1 implies #[trigger] link(prefix, i) by {
        assert(link(path, i));
    }
    assert forall|i: int| 1 <= i < prefix.len() implies open_at(b, blocked, #[trigger] prefix[i]) by {
        assert(open_at(b, blocked, path[i]));
    }
    assert(is_walk(b, blocked, prefix));
    assert(walk_of(b, blocked, s, prefix.last(), n));
    prefix.last()
}

/// A set of points that holds the start and is closed under steps onto open cells holds every
/// point that can be reached from the start.
pub proof fn lemma_closed_holds_reachable(
    b: Board,
    blocked: Seq<bool>,
    s: Point,
    inside: spec_fn(Point) -> bool,
    p: Point,
    n: nat,
)
    requires
        inside(s),
        forall|q: Point, r: Point|
            inside(q) && #[trigger] neighbors(q, r) && open_at(b, blocked, r) ==> #[trigger] inside(
                r,
            ),
        walk_of(b, blocked, s, p, n),
    ensures
        inside(p),
    decreases n,
{
    if n > 0 {
        let m = lemma_walk_last_step(b, blocked, s, p, (n - 1) as nat);
        lemma_closed_holds_reachable(b, blocked, s, inside, m, (n - 1) as nat);
    }
}

pub proof fn lemma_reaches_closed(
    b: Board,
    blocked: Seq<bool>,
    s: Point,
    inside: spec_fn(Point) -> bool,
    p: Point,
)
    requires
        inside(s),
        forall|q: Point, r: Point|
            inside(q) && #[trigger] neighbors(q, r) && open_at(b, blocked, r) ==> #[trigger] inside(
                r,
            ),
        reaches(b, blocked, s, p),
    ensures
        inside(p),
{
    let n = choose|n: nat| #[trigger] walk_of(b, blocked, s, p, n);
    lemma_closed_holds_reachable(b, blocked, s, inside, p, n);
}

/// Stepping from an in-board point never leaves the `i32` range.
pub proof fn lemma_in_board_steppable(b: Board, p: Point)
    requires
        b.wf(),
        b.spec_contains(p),
    ensures
        p.steppable(),
{
}

} // verus!
