//! Game rules: the snake, foods and rocks on a fenced board, moves, and the path heuristics.

use vstd::prelude::*;
use std::collections::VecDeque;
pub use crate::grid::{Board, Dir, Point};
use crate::grid::{
    dir_at, lemma_idx_bounds, lemma_idx_injective, lemma_idx_inverse, lemma_point_of, manhattan,
    manhattan_exec, open_at, reaches,
};
use crate::chance::{lcg_step, seeded_draw, Dice};
use crate::search::{
    distance_entry, first_hit, first_reached, search_order, flood_count, goal_in_reach, nearest_target, src_walk,
};

verus! {

broadcast use vstd::std_specs::vecdeque::group_vec_dequeue_axioms;

/// How many foods are on the board at once, and whether rocks are scattered across it.
#[derive(Clone, Copy, Debug, PartialEq, Eq, Structural)]
pub struct Rules {
    pub foods: usize,
    pub obstacles: bool,
}

pub const MAX_FOODS: usize = 12;

impl Default for Rules {
    fn default() -> (r: Self)
        ensures
            r.foods == 5,
            r.obstacles,
    {
        Rules { foods: 5, obstacles: true }
    }
}

/// The board of a `width` x `height` game.
pub open spec fn board_of(width: usize, height: usize) -> Board {
    Board { w: width as i32, h: height as i32 }
}

/// The dimensions fit the `i32` cell numbering the board uses.
pub open spec fn dims_fit(width: usize, height: usize) -> bool {
    width <= i32::MAX && height <= i32::MAX && width * height <= i32::MAX
}

/// Cell `i` holds a rock.
pub open spec fn obstacle_mask(b: Board, obstacles: Seq<Point>) -> Seq<bool> {
    Seq::new(b.spec_cells() as nat, |i: int| obstacles.contains(b.point_of(i)))
}

/// Rocks, plus the first `keep` body cells (those that stay in place for a move).
pub open spec fn body_mask(b: Board, obstacles: Seq<Point>, body: Seq<Point>, keep: int) -> Seq<bool> {
    Seq::new(
        b.spec_cells() as nat,
        |i: int| obstacles.contains(b.point_of(i)) || body.subrange(0, keep).contains(b.point_of(i)),
    )
}

/// `p` is one of the first `n` body cells.
pub open spec fn body_hit(body: Seq<Point>, n: int, p: Point) -> bool {
    exists|i: int| 0 <= i < n && #[trigger] body[i] == p
}

/// How much of the body is in the way of a move onto `p`: all of it when the move eats (the tail
/// stays put then), all but the tail otherwise.
pub open spec fn body_in_way(body: Seq<Point>, foods: Seq<Point>, p: Point) -> int {
    if foods.contains(p) {
        body.len() as int
    } else if body.len() > 0 {
        body.len() - 1
    } else {
        0
    }
}

/// Moving the head onto `p` ends the game: the fence, a rock, or the body.
pub open spec fn fatal_spec(b: Board, obstacles: Seq<Point>, body: Seq<Point>, foods: Seq<Point>, p: Point) -> bool {
    !b.spec_contains(p) || obstacles.contains(p) || body_hit(body, body_in_way(body, foods, p), p)
}

/// A sequence of points that the move rules can read (the game keeps its body in a `VecDeque`, a
/// snapshot in a `Vec`).
pub trait PointSeq {
    spec fn points(&self) -> Seq<Point>;

    fn count(&self) -> (n: usize)
        ensures
            n == self.points().len(),
    ;

    fn at(&self, i: usize) -> (p: Point)
        requires
            i < self.points().len(),
        ensures
            p == self.points()[i as int],
    ;
}

impl PointSeq for VecDeque<Point> {
    open spec fn points(&self) -> Seq<Point> {
        self@
    }

    fn count(&self) -> (n: usize) {
        self.len()
    }

    fn at(&self, i: usize) -> (p: Point) {
        self[i]
    }
}

impl PointSeq for Vec<Point> {
    open spec fn points(&self) -> Seq<Point> {
        self@
    }

    fn count(&self) -> (n: usize) {
        self.len()
    }

    fn at(&self, i: usize) -> (p: Point) {
        self[i]
    }
}

/// Would moving the head to `p` end the game? `body` is head-first; the tail cell only counts when
/// the move eats (the tail stays put then). `walls` marks obstacle cells.
fn fatal_at<B: PointSeq>(board: Board, walls: &Vec<bool>, body: &B, foods: &Vec<Point>, p: Point) -> (fatal: bool)
    requires
        board.wf(),
        walls@.len() == board.spec_cells(),
    ensures
        fatal == (!board.spec_contains(p) || walls@[board.spec_idx(p)] || body_hit(
            body.points(),
            body_in_way(body.points(), foods@, p),
            p,
        )),
{
    if !board.contains(p) || walls[board.idx(p)] {
        return true;
    }
    let ate = crate::search::contains_point(foods, p);
    let len = body.count();
    let end = if ate { len } else if len > 0 { len - 1 } else { 0 };
    let mut i: usize = 0;
    while i < end
        invariant
            end == body_in_way(body.points(), foods@, p),
            end <= body.points().len(),
            i <= end,
            forall|j: int| 0 <= j < i ==> body.points()[j] != p,
        decreases end - i,
    {
        if body.at(i) == p {
            assert(body.points()[i as int] == p);
            return true;
        }
        i += 1;
    }
    false
}

/// A fresh `Vec` holding the same points.
fn copy_points(v: &Vec<Point>) -> (r: Vec<Point>)
    ensures
        r@ == v@,
{
    let mut r: Vec<Point> = Vec::new();
    let mut i: usize = 0;
    while i < v.len()
        invariant
            i <= v.len(),
            r@ == v@.subrange(0, i as int),
        decreases v.len() - i,
    {
        r.push(v[i]);
        i += 1;
    }
    r
}

/// A fresh `Vec` holding the same flags.
fn copy_flags(v: &Vec<bool>) -> (r: Vec<bool>)
    ensures
        r@ == v@,
{
    let mut r: Vec<bool> = Vec::new();
    let mut i: usize = 0;
    while i < v.len()
        invariant
            i <= v.len(),
            r@ == v@.subrange(0, i as int),
        decreases v.len() - i,
    {
        r.push(v[i]);
        i += 1;
    }
    r
}

/// The rock flags of `obstacles` on board `board` (rocks off the board are ignored).
fn build_walls(board: Board, obstacles: &Vec<Point>) -> (walls: Vec<bool>)
    requires
        board.wf(),
    ensures
        walls@ == obstacle_mask(board, obstacles@),
{
    let cells = board.cells();
    let mut walls: Vec<bool> = Vec::new();
    let mut i: usize = 0;
    while i < cells
        invariant
            i <= cells,
            walls@.len() == i,
            forall|j: int| 0 <= j < i ==> !walls@[j],
        decreases cells - i,
    {
        walls.push(false);
        i += 1;
    }
    let mut k: usize = 0;
    while k < obstacles.len()
        invariant
            board.wf(),
            k <= obstacles.len(),
            walls@.len() == board.spec_cells(),
            forall|j: int| 0 <= j < board.spec_cells() ==> (walls@[j] <==> exists|o: int|
                0 <= o < k && #[trigger] obstacles@[o] == board.point_of(j)),
        decreases obstacles.len() - k,
    {
        let p = obstacles[k];
        if board.contains(p) {
            let pi = board.idx(p);
            let ghost old_walls = walls@;
            walls.set(pi, true);
            proof {
                lemma_idx_inverse(board, p);
                assert forall|j: int| 0 <= j < board.spec_cells() implies (walls@[j] <==> exists|o: int|
                    0 <= o < k + 1 && #[trigger] obstacles@[o] == board.point_of(j)) by {
                    if j == pi {
                        assert(obstacles@[k as int] == board.point_of(j));
                    } else {
                        if exists|o: int| 0 <= o < k + 1 && #[trigger] obstacles@[o] == board.point_of(j) {
                            let o = choose|o: int| 0 <= o < k + 1 && #[trigger] obstacles@[o] == board.point_of(j);
                            if o == k {
                                lemma_point_of(board, j);
                            }
                        }
                    }
                }
            }
        } else {
            proof {
                assert forall|j: int| 0 <= j < board.spec_cells() implies (walls@[j] <==> exists|o: int|
                    0 <= o < k + 1 && #[trigger] obstacles@[o] == board.point_of(j)) by {
                    if exists|o: int| 0 <= o < k + 1 && #[trigger] obstacles@[o] == board.point_of(j) {
                        let o = choose|o: int| 0 <= o < k + 1 && #[trigger] obstacles@[o] == board.point_of(j);
                        if o == k {
                            lemma_point_of(board, j);
                        }
                    }
                }
            }
        }
        k += 1;
    }
    proof {
        assert(walls@ =~= obstacle_mask(board, obstacles@)) by {
            assert forall|j: int| 0 <= j < board.spec_cells() implies walls@[j] == obstacle_mask(board, obstacles@)[j] by {
                if obstacles@.contains(board.point_of(j)) {
                    let o = choose|o: int| 0 <= o < obstacles@.len() && obstacles@[o] == board.point_of(j);
                }
            }
        }
    }
    walls
}

/// A rock mask agrees with the rock list on every in-board point.
pub proof fn lemma_mask_at(b: Board, obstacles: Seq<Point>, p: Point)
    requires
        b.wf(),
        b.spec_contains(p),
    ensures
        obstacle_mask(b, obstacles)[b.spec_idx(p)] == obstacles.contains(p),
        0 <= b.spec_idx(p) < obstacle_mask(b, obstacles).len(),
{
    lemma_idx_bounds(b, p);
    lemma_idx_inverse(b, p);
}

/// `p` is a free cell: on the board and holding no rock, body or food.
pub open spec fn cell_free(b: Board, obstacles: Seq<Point>, body: Seq<Point>, foods: Seq<Point>, p: Point) -> bool {
    b.spec_contains(p) && !obstacles.contains(p) && !body.contains(p) && !foods.contains(p)
}

/// Cell `i` holds a rock, a body part or a food.
pub open spec fn occupied_mask(b: Board, obstacles: Seq<Point>, body: Seq<Point>, foods: Seq<Point>) -> Seq<bool> {
    Seq::new(
        b.spec_cells() as nat,
        |i: int| obstacles.contains(b.point_of(i)) || body.contains(b.point_of(i)) || foods.contains(b.point_of(i)),
    )
}

/// Every food lies on its own free cell: on the board, off the rocks and off the body.
pub open spec fn foods_placed(b: Board, obstacles: Seq<Point>, body: Seq<Point>, foods: Seq<Point>) -> bool {
    &&& foods.no_duplicates()
    &&& forall|j: int| 0 <= j < foods.len() ==> b.spec_contains(#[trigger] foods[j]) && !obstacles.contains(foods[j]) && !body.contains(foods[j])
}

/// No free cell is left.
pub open spec fn board_full(b: Board, obstacles: Seq<Point>, body: Seq<Point>, foods: Seq<Point>) -> bool {
    forall|p: Point| !#[trigger] cell_free(b, obstacles, body, foods, p)
}

/// The position in column-major scan order (`x` outer, `y` inner) of scan step `k`.
pub open spec fn scan_point(b: Board, k: int) -> Point {
    Point { x: (k / (b.h as int)) as i32, y: (k % (b.h as int)) as i32 }
}

/// How many unoccupied cells the first `n` steps of the column-major scan pass.
pub open spec fn free_upto(b: Board, occupied: Seq<bool>, n: int) -> int
    decreases n,
{
    if n <= 0 {
        0
    } else {
        free_upto(b, occupied, n - 1) + (if !occupied[b.spec_idx(scan_point(b, n - 1))] { 1int } else { 0int })
    }
}

/// The first point with `n` passes: index of the first Manhattan-closest point to `h` among `s[0..n]`.
pub open spec fn closest_index(s: Seq<Point>, h: Point, n: int) -> int
    decreases n,
{
    if n <= 1 {
        0
    } else {
        let j = closest_index(s, h, n - 1);
        if manhattan(s[n - 1], h) < manhattan(s[j], h) {
            n - 1
        } else {
            j
        }
    }
}

/// The first of the foods closest to `h` by Manhattan distance, if there is any food.
pub open spec fn closest_food(foods: Seq<Point>, h: Point) -> Option<Point> {
    if foods.len() == 0 {
        None
    } else {
        Some(foods[closest_index(foods, h, foods.len() as int)])
    }
}

proof fn lemma_closest_index(s: Seq<Point>, h: Point, n: int)
    requires
        1 <= n <= s.len(),
    ensures
        0 <= closest_index(s, h, n) < n,
        forall|j: int| 0 <= j < n ==> manhattan(s[closest_index(s, h, n)], h) <= manhattan(#[trigger] s[j], h),
        forall|j: int| 0 <= j < closest_index(s, h, n) ==> manhattan(s[closest_index(s, h, n)], h) < manhattan(#[trigger] s[j], h),
    decreases n,
{
    if n > 1 {
        lemma_closest_index(s, h, n - 1);
    }
}

/// The first point of `s` among those closest to `h` (Manhattan), or `None` when `s` is empty.
fn closest_point(s: &Vec<Point>, h: Point) -> (r: Option<Point>)
    ensures
        r == closest_food(s@, h),
{
    if s.len() == 0 {
        return None;
    }
    let mut best: usize = 0;
    let mut best_d: i64 = manhattan_exec(s[0], h);
    let mut i: usize = 1;
    while i < s.len()
        invariant
            1 <= i <= s@.len(),
            best == closest_index(s@, h, i as int),
            best < i,
            best_d == manhattan(s@[best as int], h),
        decreases s.len() - i,
    {
        let d = manhattan_exec(s[i], h);
        if d < best_d {
            best = i;
            best_d = d;
        }
        i += 1;
    }
    Some(s[best])
}

/// The `pick`-th unoccupied cell in column-major order (`x` outer, `y` inner), counting from 0, or
/// `None` when there are no more than `pick` unoccupied cells.
pub fn nth_free_cell(board: Board, occupied: &Vec<bool>, pick: usize) -> (r: Option<Point>)
    requires
        board.wf(),
        occupied@.len() == board.spec_cells(),
    ensures
        match r {
            Some(p) => {
                &&& board.spec_contains(p)
                &&& !occupied@[board.spec_idx(p)]
                &&& free_upto(board, occupied@, p.x * board.h + p.y) == pick
            },
            None => free_upto(board, occupied@, board.spec_cells()) <= pick,
        },
{
    let mut left: usize = pick;
    let mut x: i32 = 0;
    proof {
        assert(free_upto(board, occupied@, 0) == 0);
    }
    while x < board.w
        invariant
            board.wf(),
            occupied@.len() == board.spec_cells(),
            0 <= x <= board.w,
            left + free_upto(board, occupied@, x * board.h) == pick,
        decreases board.w - x,
    {
        let mut y: i32 = 0;
        while y < board.h
            invariant
                board.wf(),
                occupied@.len() == board.spec_cells(),
                0 <= x < board.w,
                0 <= y <= board.h,
                left + free_upto(board, occupied@, x * board.h + y) == pick,
            decreases board.h - y,
        {
            let p = Point { x, y };
            let ghost k: int = x * board.h + y;
            proof {
                assert(x * board.h + y < board.w * board.h) by (nonlinear_arith)
                    requires
                        0 <= x < board.w,
                        0 <= y < board.h,
                ;
                vstd::arithmetic::div_mod::lemma_fundamental_div_mod_converse(k, board.h as int, x as int, y as int);
                assert(scan_point(board, k) == p);
            }
            if !occupied[board.idx(p)] {
                if left == 0 {
                    return Some(p);
                }
                left -= 1;
            }
            y += 1;
        }
        proof {
            assert(x * board.h + board.h == (x + 1) * board.h) by (nonlinear_arith);
        }
        x += 1;
    }
    proof {
        assert(board.w * board.h == board.spec_cells());
    }
    None
}

/// Passing `n` scan steps finds no unoccupied cell only if each of them is occupied.
proof fn lemma_free_upto_zero(b: Board, occupied: Seq<bool>, n: int, k: int)
    requires
        0 <= k < n,
        free_upto(b, occupied, n) == 0,
    ensures
        occupied[b.spec_idx(scan_point(b, k))],
    decreases n,
{
    lemma_free_upto_nonneg(b, occupied, n - 1);
    if k < n - 1 {
        lemma_free_upto_zero(b, occupied, n - 1, k);
    }
}

proof fn lemma_free_upto_nonneg(b: Board, occupied: Seq<bool>, n: int)
    ensures
        free_upto(b, occupied, n) >= 0,
    decreases n,
{
    if n > 0 {
        lemma_free_upto_nonneg(b, occupied, n - 1);
    }
}

/// The column-major scan visits every in-board cell.
proof fn lemma_scan_covers(b: Board, p: Point)
    requires
        b.wf(),
        b.spec_contains(p),
    ensures
        0 <= p.x * b.h + p.y < b.spec_cells(),
        scan_point(b, p.x * b.h + p.y) == p,
{
    assert(0 <= p.x * b.h + p.y < b.w * b.h) by (nonlinear_arith)
        requires
            0 <= p.x < b.w,
            0 <= p.y < b.h,
    ;
    vstd::arithmetic::div_mod::lemma_fundamental_div_mod_converse(p.x * b.h + p.y, b.h as int, p.x as int, p.y as int);
}

#[derive(Clone, Debug)]
pub struct SnakeGame {
    pub width: usize,
    pub height: usize,
    /// Head first.
    pub snake: VecDeque<Point>,
    pub direction: Dir,
    pub score: u32,
    pub game_over: bool,
    pub foods: Vec<Point>,
    pub obstacles: Vec<Point>,
    pub rules: Rules,
    /// One flag per cell (row by row), set where a rock lies; `set_obstacles` keeps it in step
    /// with `obstacles`.
    pub walls: Vec<bool>,
    /// Where rock layouts and new foods are drawn from.
    pub dice: Dice,
}

impl SnakeGame {
    pub open spec fn spec_board(&self) -> Board {
        board_of(self.width, self.height)
    }

    /// The rock flags agree with the rock list, the board fits the cell numbering, and the snake
    /// has a head that can take a step.
    pub open spec fn wf(&self) -> bool {
        &&& dims_fit(self.width, self.height)
        &&& self.walls@ == obstacle_mask(self.spec_board(), self.obstacles@)
        &&& self.snake@.len() >= 1
        &&& self.snake@[0].steppable()
    }

    pub open spec fn spec_head(&self) -> Point {
        self.snake@[0]
    }

    /// Moving in `dir` ends the game.
    pub open spec fn fatal(&self, dir: Dir) -> bool {
        fatal_spec(self.spec_board(), self.obstacles@, self.snake@, self.foods@, self.spec_head().moved(dir))
    }

    pub open spec fn placed(&self) -> bool {
        foods_placed(self.spec_board(), self.obstacles@, self.snake@, self.foods@)
    }

    pub open spec fn full(&self) -> bool {
        board_full(self.spec_board(), self.obstacles@, self.snake@, self.foods@)
    }

    pub fn board(&self) -> (b: Board)
        requires
            self.wf(),
        ensures
            b == self.spec_board(),
            b.wf(),
    {
        Board::new(self.width, self.height)
    }

    pub fn head(&self) -> (p: Point)
        requires
            self.wf(),
        ensures
            p == self.spec_head(),
    {
        self.snake[0]
    }

    pub fn is_obstacle(&self, p: Point) -> (r: bool)
        requires
            self.wf(),
        ensures
            r == (self.spec_board().spec_contains(p) && self.obstacles@.contains(p)),
    {
        let board = self.board();
        if board.contains(p) {
            proof {
                lemma_mask_at(board, self.obstacles@, p);
            }
            self.walls[board.idx(p)]
        } else {
            false
        }
    }

    pub fn next_head(&self, dir: Dir) -> (p: Point)
        requires
            self.wf(),
        ensures
            p == self.spec_head().moved(dir),
    {
        self.head().step(dir)
    }

    pub fn is_fatal(&self, dir: Dir) -> (r: bool)
        requires
            self.wf(),
        ensures
            r == self.fatal(dir),
    {
        let board = self.board();
        let p = self.next_head(dir);
        proof {
            if board.spec_contains(p) {
                lemma_mask_at(board, self.obstacles@, p);
            }
        }
        fatal_at(board, &self.walls, &self.snake, &self.foods, p)
    }

    /// Replaces the obstacle layout (used by tests and `reset`).
    pub fn set_obstacles(&mut self, obstacles: Vec<Point>)
        requires
            old(self).wf(),
        ensures
            final(self).wf(),
            final(self).obstacles@ == obstacles@,
            final(self).width == old(self).width,
            final(self).height == old(self).height,
            final(self).snake@ == old(self).snake@,
            final(self).foods@ == old(self).foods@,
            final(self).direction == old(self).direction,
            final(self).score == old(self).score,
            final(self).game_over == old(self).game_over,
            final(self).rules == old(self).rules,
            final(self).dice == old(self).dice,
    {
        let board = self.board();
        self.walls = build_walls(board, &obstacles);
        self.obstacles = obstacles;
    }

    /// The occupancy flags: rocks, body and foods.
    fn occupied(&self) -> (occ: Vec<bool>)
        requires
            self.wf(),
        ensures
            occ@ == occupied_mask(self.spec_board(), self.obstacles@, self.snake@, self.foods@),
    {
        let board = self.board();
        let mut occ = copy_flags(&self.walls);
        let mut i: usize = 0;
        while i < self.snake.len()
            invariant
                board == self.spec_board(),
                board.wf(),
                self.wf(),
                i <= self.snake@.len(),
                occ@.len() == board.spec_cells(),
                forall|j: int| 0 <= j < board.spec_cells() ==> (occ@[j] <==> (self.obstacles@.contains(board.point_of(j))
                    || self.snake@.subrange(0, i as int).contains(board.point_of(j)))),
            decreases self.snake@.len() - i,
        {
            let p = self.snake[i];
            if board.contains(p) {
                let pi = board.idx(p);
                let ghost old_occ = occ@;
                occ.set(pi, true);
                proof {
                    lemma_idx_inverse(board, p);
                    assert forall|j: int| 0 <= j < board.spec_cells() implies (occ@[j] <==> (self.obstacles@.contains(board.point_of(j))
                        || self.snake@.subrange(0, i + 1).contains(board.point_of(j)))) by {
                        lemma_point_of(board, j);
                        lemma_sub_push(self.snake@, i as int, board.point_of(j));
                        if j != pi {
                            if board.point_of(j) == p {
                                lemma_idx_inverse(board, p);
                            }
                        }
                    }
                }
            } else {
                proof {
                    assert forall|j: int| 0 <= j < board.spec_cells() implies (occ@[j] <==> (self.obstacles@.contains(board.point_of(j))
                        || self.snake@.subrange(0, i + 1).contains(board.point_of(j)))) by {
                        lemma_point_of(board, j);
                        lemma_sub_push(self.snake@, i as int, board.point_of(j));
                    }
                }
            }
            i += 1;
        }
        proof {
            assert(self.snake@.subrange(0, self.snake@.len() as int) =~= self.snake@);
            assert(self.foods@.subrange(0, 0) =~= Seq::<Point>::empty());
        }
        let mut k: usize = 0;
        while k < self.foods.len()
            invariant
                board == self.spec_board(),
                board.wf(),
                self.wf(),
                k <= self.foods@.len(),
                occ@.len() == board.spec_cells(),
                forall|j: int| 0 <= j < board.spec_cells() ==> (occ@[j] <==> (self.obstacles@.contains(board.point_of(j))
                    || self.snake@.contains(board.point_of(j)) || self.foods@.subrange(0, k as int).contains(board.point_of(j)))),
            decreases self.foods@.len() - k,
        {
            let p = self.foods[k];
            if board.contains(p) {
                let pi = board.idx(p);
                occ.set(pi, true);
                proof {
                    lemma_idx_inverse(board, p);
                    assert forall|j: int| 0 <= j < board.spec_cells() implies (occ@[j] <==> (self.obstacles@.contains(board.point_of(j))
                        || self.snake@.contains(board.point_of(j)) || self.foods@.subrange(0, k + 1).contains(board.point_of(j)))) by {
                        lemma_point_of(board, j);
                        lemma_sub_push(self.foods@, k as int, board.point_of(j));
                    }
                }
            } else {
                proof {
                    assert forall|j: int| 0 <= j < board.spec_cells() implies (occ@[j] <==> (self.obstacles@.contains(board.point_of(j))
                        || self.snake@.contains(board.point_of(j)) || self.foods@.subrange(0, k + 1).contains(board.point_of(j)))) by {
                        lemma_point_of(board, j);
                        lemma_sub_push(self.foods@, k as int, board.point_of(j));
                    }
                }
            }
            k += 1;
        }
        proof {
            assert(self.snake@.subrange(0, self.snake@.len() as int) =~= self.snake@);
            assert(self.foods@.subrange(0, self.foods@.len() as int) =~= self.foods@);
            assert(occ@ =~= occupied_mask(self.spec_board(), self.obstacles@, self.snake@, self.foods@));
        }
        occ
    }

    /// A uniformly random free cell (no snake, rock or food), or `None` when there is none; the
    /// draw comes from `dice`.
    fn spawn_with(&self, dice: &mut Dice) -> (r: Option<Point>)
        requires
            self.wf(),
        ensures
            match r {
                Some(p) => cell_free(self.spec_board(), self.obstacles@, self.snake@, self.foods@, p),
                None => self.full(),
            },
            match *old(dice) {
                Dice::Seeded(s) => (r, *final(dice)) == ({
                    let (c, t) = spawn_from(self.spec_board(), self.obstacles@, self.snake@, self.foods@, s);
                    (c, Dice::Seeded(t))
                }),
                Dice::Thread => *final(dice) == Dice::Thread,
            },
    {
        let board = self.board();
        let occupied = self.occupied();
        let free = free_cells(board, &occupied);
        if free == 0 {
            proof {
                assert forall|p: Point| !#[trigger] cell_free(self.spec_board(), self.obstacles@, self.snake@, self.foods@, p) by {
                    if cell_free(self.spec_board(), self.obstacles@, self.snake@, self.foods@, p) {
                        lemma_scan_covers(board, p);
                        lemma_free_upto_zero(board, occupied@, board.spec_cells(), p.x * board.h + p.y);
                        lemma_idx_inverse(board, p);
                        lemma_idx_bounds(board, p);
                    }
                }
            }
            return None;
        }
        let pick = dice.below(free);
        let r = nth_free_cell(board, &occupied, pick);
        proof {
            if let Some(p) = r {
                lemma_idx_inverse(board, p);
                lemma_idx_bounds(board, p);
                let occ = occupied@;
                let q = choose|q: Point| board.spec_contains(q) && !occ[board.spec_idx(q)] && free_upto(board, occ, q.x * board.h + q.y) == pick;
                lemma_nth_free_unique(board, occ, p, q);
                assert(nth_free(board, occ, pick as int) == Some(p));
            }
        }
        r
    }

    /// A uniformly random free cell (no snake, rock or food), or `None` when there is none; a
    /// seeded game draws it from its generator.
    pub fn spawn_food(&mut self) -> (r: Option<Point>)
        requires
            old(self).wf(),
        ensures
            match r {
                Some(p) => cell_free(old(self).spec_board(), old(self).obstacles@, old(self).snake@, old(self).foods@, p),
                None => old(self).full(),
            },
            match old(self).dice {
                Dice::Seeded(s) => (r, final(self).dice) == ({
                    let (c, t) = spawn_from(old(self).spec_board(), old(self).obstacles@, old(self).snake@, old(self).foods@, s);
                    (c, Dice::Seeded(t))
                }),
                Dice::Thread => final(self).dice == Dice::Thread,
            },
            *final(self) == (SnakeGame { dice: final(self).dice, ..*old(self) }),
    {
        let mut d = self.dice;
        let r = self.spawn_with(&mut d);
        self.dice = d;
        r
    }
}

/// `s[0..i+1]` holds `p` exactly when `s[0..i]` does or `s[i] == p`.
proof fn lemma_sub_push(s: Seq<Point>, i: int, p: Point)
    requires
        0 <= i < s.len(),
    ensures
        s.subrange(0, i + 1).contains(p) <==> (s.subrange(0, i).contains(p) || s[i] == p),
{
    let a = s.subrange(0, i);
    let b = s.subrange(0, i + 1);
    assert(b =~= a.push(s[i]));
    if b.contains(p) {
        let j = choose|j: int| 0 <= j < b.len() && b[j] == p;
        if j < i {
            assert(a[j] == p);
        }
    }
    if a.contains(p) {
        let j = choose|j: int| 0 <= j < a.len() && a[j] == p;
        assert(b[j] == p);
    }
    if s[i] == p {
        assert(b[i] == p);
    }
}

/// The number of unoccupied cells, counted in column-major scan order.
fn free_cells(board: Board, occupied: &Vec<bool>) -> (n: usize)
    requires
        board.wf(),
        occupied@.len() == board.spec_cells(),
    ensures
        n == free_upto(board, occupied@, board.spec_cells()),
{
    let mut n: usize = 0;
    let mut x: i32 = 0;
    while x < board.w
        invariant
            board.wf(),
            occupied@.len() == board.spec_cells(),
            0 <= x <= board.w,
            n == free_upto(board, occupied@, x * board.h),
            n <= x * board.h,
        decreases board.w - x,
    {
        let mut y: i32 = 0;
        while y < board.h
            invariant
                board.wf(),
                occupied@.len() == board.spec_cells(),
                0 <= x < board.w,
                0 <= y <= board.h,
                n == free_upto(board, occupied@, x * board.h + y),
                n <= x * board.h + y,
            decreases board.h - y,
        {
            let p = Point { x, y };
            let ghost k: int = x * board.h + y;
            proof {
                assert(x * board.h + y < board.w * board.h) by (nonlinear_arith)
                    requires
                        0 <= x < board.w,
                        0 <= y < board.h,
                ;
                vstd::arithmetic::div_mod::lemma_fundamental_div_mod_converse(k, board.h as int, x as int, y as int);
                assert(scan_point(board, k) == p);
            }
            if !occupied[board.idx(p)] {
                n += 1;
            }
            y += 1;
        }
        proof {
            assert(x * board.h + board.h == (x + 1) * board.h) by (nonlinear_arith);
        }
        x += 1;
    }
    proof {
        assert(board.w * board.h == board.spec_cells());
    }
    n
}

/// `result` is `base` topped up towards `target` foods: `base` stays in front, every added food
/// is a free cell given what came before it, and the top-up stops only at the target or when
/// no free cell is left.
pub open spec fn refill_of(b: Board, obstacles: Seq<Point>, body: Seq<Point>, base: Seq<Point>, target: usize, result: Seq<Point>) -> bool {
    &&& result.len() >= base.len()
    &&& result.subrange(0, base.len() as int) == base
    &&& forall|j: int| base.len() <= j < result.len() ==> #[trigger] cell_free(b, obstacles, body, result.subrange(0, j), result[j])
    &&& (base.len() >= target ==> result == base)
    &&& (base.len() < target ==> result.len() <= target)
    &&& (result.len() >= target || board_full(b, obstacles, body, result))
}

/// The index of the first `p` in `s`.
fn position_of(s: &Vec<Point>, p: Point) -> (r: Option<usize>)
    ensures
        match r {
            Some(i) => i < s@.len() && s@[i as int] == p && forall|j: int| 0 <= j < i ==> s@[j] != p,
            None => !s@.contains(p),
        },
{
    let mut i: usize = 0;
    while i < s.len()
        invariant
            i <= s@.len(),
            forall|j: int| 0 <= j < i ==> s@[j] != p,
        decreases s.len() - i,
    {
        if s[i] == p {
            return Some(i);
        }
        i += 1;
    }
    None
}

/// Appending a food on a free cell keeps the foods on their own free cells.
proof fn lemma_placed_push(b: Board, obstacles: Seq<Point>, body: Seq<Point>, foods: Seq<Point>, p: Point)
    requires
        foods_placed(b, obstacles, body, foods),
        cell_free(b, obstacles, body, foods, p),
    ensures
        foods_placed(b, obstacles, body, foods.push(p)),
{
    let f2 = foods.push(p);
    assert forall|i: int, j: int| 0 <= i < f2.len() && 0 <= j < f2.len() && i != j implies f2[i] != f2[j] by {
        if i < foods.len() && j < foods.len() {
        } else if i < foods.len() {
            assert(foods.contains(foods[i]));
        } else {
            assert(foods.contains(foods[j]));
        }
    }
}

/// The snake moved its head onto `p` without eating: foods that were off the old body are off the
/// new one.
proof fn lemma_placed_after_move(b: Board, obstacles: Seq<Point>, body: Seq<Point>, new_body: Seq<Point>, foods: Seq<Point>, p: Point)
    requires
        foods_placed(b, obstacles, body, foods),
        !foods.contains(p),
        forall|q: Point| #[trigger] new_body.contains(q) ==> q == p || body.contains(q),
    ensures
        foods_placed(b, obstacles, new_body, foods),
{
    assert forall|j: int| 0 <= j < foods.len() implies !new_body.contains(#[trigger] foods[j]) by {
        if new_body.contains(foods[j]) {
            assert(foods.contains(foods[j]));
        }
    }
}

/// The `pick`-th unoccupied cell in column-major scan order, counting from 0, or `None` when
/// there are no more than `pick` of them.
pub open spec fn nth_free(b: Board, occupied: Seq<bool>, pick: int) -> Option<Point> {
    if free_upto(b, occupied, b.spec_cells()) <= pick {
        None
    } else {
        Some(choose|p: Point| b.spec_contains(p) && !occupied[b.spec_idx(p)] && free_upto(b, occupied, p.x * b.h + p.y) == pick)
    }
}

/// The food cell the seeded generator in state `s` draws: a draw from the number of free cells
/// picks the free cell by its scan position; no draw when no cell is free.
pub open spec fn spawn_from(b: Board, obstacles: Seq<Point>, body: Seq<Point>, foods: Seq<Point>, s: u64) -> (Option<Point>, u64) {
    let occ = occupied_mask(b, obstacles, body, foods);
    let free = free_upto(b, occ, b.spec_cells());
    if free <= 0 {
        (None, s)
    } else {
        (nth_free(b, occ, seeded_draw(s, free).0), seeded_draw(s, free).1)
    }
}

/// `foods` topped up to `target` by the seeded generator in state `s`, and the state after.
pub open spec fn refill_from(b: Board, obstacles: Seq<Point>, body: Seq<Point>, foods: Seq<Point>, target: int, s: u64) -> (Seq<Point>, u64)
    decreases target - foods.len(),
{
    if foods.len() >= target {
        (foods, s)
    } else {
        match spawn_from(b, obstacles, body, foods, s) {
            (Some(p), t) => refill_from(b, obstacles, body, foods.push(p), target, t),
            (None, t) => (foods, t),
        }
    }
}

/// `free_upto` never falls as the scan goes on.
proof fn lemma_free_upto_mono(b: Board, occupied: Seq<bool>, m: int, n: int)
    requires
        m <= n,
    ensures
        free_upto(b, occupied, m) <= free_upto(b, occupied, n),
    decreases n - m,
{
    if m < n {
        lemma_free_upto_mono(b, occupied, m, n - 1);
        if n - 1 >= 0 {
            assert(free_upto(b, occupied, n) >= free_upto(b, occupied, n - 1));
        }
    }
}

/// Only one free cell has a given scan position among the free cells.
proof fn lemma_nth_free_unique(b: Board, occupied: Seq<bool>, p: Point, q: Point)
    requires
        b.wf(),
        occupied.len() == b.spec_cells(),
        b.spec_contains(p),
        b.spec_contains(q),
        !occupied[b.spec_idx(p)],
        !occupied[b.spec_idx(q)],
        free_upto(b, occupied, p.x * b.h + p.y) == free_upto(b, occupied, q.x * b.h + q.y),
    ensures
        p == q,
{
    lemma_scan_covers(b, p);
    lemma_scan_covers(b, q);
    let kp = p.x * b.h + p.y;
    let kq = q.x * b.h + q.y;
    if kp < kq {
        lemma_free_upto_mono(b, occupied, kp + 1, kq);
        assert(free_upto(b, occupied, kp + 1) == free_upto(b, occupied, kp) + 1);
    } else if kq < kp {
        lemma_free_upto_mono(b, occupied, kq + 1, kp);
        assert(free_upto(b, occupied, kq + 1) == free_upto(b, occupied, kq) + 1);
    }
}

/// One round of the seeded top-up: a drawn food is added and the top-up goes on from the state
/// after; when no cell is free, the top-up ends there.
proof fn lemma_refill_unfold(b: Board, obstacles: Seq<Point>, body: Seq<Point>, foods: Seq<Point>, target: int, s: u64)
    requires
        foods.len() < target,
    ensures
        match spawn_from(b, obstacles, body, foods, s) {
            (Some(p), t) => refill_from(b, obstacles, body, foods, target, s) == refill_from(b, obstacles, body, foods.push(p), target, t),
            (None, t) => refill_from(b, obstacles, body, foods, target, s) == (foods, t) && refill_from(b, obstacles, body, foods, target, t) == (foods, t),
        },
{
    let occ = occupied_mask(b, obstacles, body, foods);
    let free = free_upto(b, occ, b.spec_cells());
    if free > 0 {
        let pick = seeded_draw(s, free).0;
        assert(0 <= pick < free);
    }
}

impl SnakeGame {
    /// Tops the board up to the target number of foods.
    #[verifier::rlimit(40)]
    fn refill_food(&mut self)
        requires
            old(self).wf(),
        ensures
            final(self).wf(),
            final(self).width == old(self).width,
            final(self).height == old(self).height,
            final(self).snake@ == old(self).snake@,
            final(self).obstacles@ == old(self).obstacles@,
            final(self).direction == old(self).direction,
            final(self).score == old(self).score,
            final(self).game_over == old(self).game_over,
            final(self).rules == old(self).rules,
            refill_of(old(self).spec_board(), old(self).obstacles@, old(self).snake@, old(self).foods@, old(self).rules.foods, final(self).foods@),
            old(self).placed() ==> final(self).placed(),
            match old(self).dice {
                Dice::Seeded(s) => (final(self).foods@, final(self).dice) == ({
                    let (f, t) = refill_from(old(self).spec_board(), old(self).obstacles@, old(self).snake@, old(self).foods@, old(self).rules.foods as int, s);
                    (f, Dice::Seeded(t))
                }),
                Dice::Thread => final(self).dice == Dice::Thread,
            },
    {
        let ghost base = self.foods@;
        while self.foods.len() < self.rules.foods
            invariant_except_break
                base.len() < self.rules.foods ==> self.foods@.len() <= self.rules.foods,
            invariant
                self.wf(),
                self.width == old(self).width,
                self.height == old(self).height,
                self.snake@ == old(self).snake@,
                self.obstacles@ == old(self).obstacles@,
                self.direction == old(self).direction,
                self.score == old(self).score,
                self.game_over == old(self).game_over,
                self.rules == old(self).rules,
                base == old(self).foods@,
                self.foods@.len() >= base.len(),
                self.foods@.subrange(0, base.len() as int) == base,
                forall|j: int| base.len() <= j < self.foods@.len() ==> #[trigger] cell_free(self.spec_board(), self.obstacles@, self.snake@, self.foods@.subrange(0, j), self.foods@[j]),
                base.len() >= self.rules.foods ==> self.foods@ == base,
                old(self).placed() ==> self.placed(),
                match old(self).dice {
                    Dice::Seeded(s0) => self.dice matches Dice::Seeded(s) && refill_from(self.spec_board(), self.obstacles@, self.snake@, self.foods@, self.rules.foods as int, s)
                        == refill_from(self.spec_board(), self.obstacles@, self.snake@, base, self.rules.foods as int, s0),
                    Dice::Thread => self.dice == Dice::Thread,
                },
            ensures
                self.foods@.len() >= self.rules.foods || self.full(),
                base.len() < self.rules.foods ==> self.foods@.len() <= self.rules.foods,
                self.dice matches Dice::Seeded(s) ==> refill_from(self.spec_board(), self.obstacles@, self.snake@, self.foods@, self.rules.foods as int, s)
                    == (self.foods@, s),
            decreases self.rules.foods - self.foods@.len(),
        {
            proof {
                if let Dice::Seeded(s) = self.dice {
                    lemma_refill_unfold(self.spec_board(), self.obstacles@, self.snake@, self.foods@, self.rules.foods as int, s);
                }
            }
            let mut d = self.dice;
            let drawn = self.spawn_with(&mut d);
            self.dice = d;
            match drawn {
                Some(p) => {
                    let ghost before = self.foods@;
                    self.foods.push(p);
                    proof {
                        assert(self.foods@.subrange(0, before.len() as int) =~= before);
                        assert(self.foods@.subrange(0, base.len() as int) =~= before.subrange(0, base.len() as int));
                        assert forall|j: int| base.len() <= j < self.foods@.len() implies #[trigger] cell_free(self.spec_board(), self.obstacles@, self.snake@, self.foods@.subrange(0, j), self.foods@[j]) by {
                            if j < before.len() {
                                assert(self.foods@.subrange(0, j) =~= before.subrange(0, j));
                                assert(cell_free(self.spec_board(), self.obstacles@, self.snake@, before.subrange(0, j), before[j]));
                            } else {
                                assert(self.foods@.subrange(0, j) =~= before);
                            }
                        }
                        if old(self).placed() {
                            lemma_placed_push(self.spec_board(), self.obstacles@, self.snake@, before, p);
                        }
                    }
                },
                None => {
                    break;
                },
            }
        }
        proof {
            if let Dice::Seeded(s) = self.dice {
                if self.foods@.len() >= self.rules.foods {
                    assert(refill_from(self.spec_board(), self.obstacles@, self.snake@, self.foods@, self.rules.foods as int, s) == (self.foods@, s));
                }
            }
        }
    }

    /// Changes how many foods are kept on the board, adding or dropping foods right away.
    pub fn set_food_target(&mut self, n: usize)
        requires
            old(self).wf(),
        ensures
            final(self).wf(),
            final(self).rules.foods == (if n < 1 { 1 } else if n > MAX_FOODS { MAX_FOODS } else { n }),
            final(self).rules.obstacles == old(self).rules.obstacles,
            refill_of(
                old(self).spec_board(),
                old(self).obstacles@,
                old(self).snake@,
                if old(self).foods@.len() > final(self).rules.foods { old(self).foods@.subrange(0, final(self).rules.foods as int) } else { old(self).foods@ },
                final(self).rules.foods,
                final(self).foods@,
            ),
            final(self).width == old(self).width,
            final(self).height == old(self).height,
            final(self).snake@ == old(self).snake@,
            final(self).obstacles@ == old(self).obstacles@,
            final(self).direction == old(self).direction,
            final(self).score == old(self).score,
            final(self).game_over == old(self).game_over,
            old(self).placed() ==> final(self).placed(),
    {
        self.rules.foods = if n < 1 { 1 } else if n > MAX_FOODS { MAX_FOODS } else { n };
        let ghost before = self.foods@;
        self.foods.truncate(self.rules.foods);
        proof {
            assert(self.foods@ == (if before.len() > self.rules.foods { before.subrange(0, self.rules.foods as int) } else { before }));
            if old(self).placed() {
                let f = self.foods@;
                assert forall|i: int, j: int| 0 <= i < f.len() && 0 <= j < f.len() && i != j implies f[i] != f[j] by {
                    assert(f[i] == before[i] && f[j] == before[j]);
                }
                assert forall|j: int| 0 <= j < f.len() implies self.spec_board().spec_contains(#[trigger] f[j]) && !self.obstacles@.contains(f[j]) && !self.snake@.contains(f[j]) by {
                    assert(f[j] == before[j]);
                }
            }
        }
        self.refill_food();
    }

    pub fn step(&mut self, dir: Dir)
        requires
            old(self).wf(),
            !old(self).game_over && !old(self).fatal(dir) && old(self).foods@.contains(old(self).spec_head().moved(dir))
                ==> old(self).score < u32::MAX,
        ensures
            final(self).wf(),
            final(self).width == old(self).width,
            final(self).height == old(self).height,
            final(self).obstacles@ == old(self).obstacles@,
            final(self).rules == old(self).rules,
            old(self).game_over ==> *final(self) == *old(self),
            !old(self).game_over && old(self).fatal(dir) ==> {
                &&& final(self).game_over
                &&& final(self).direction == dir
                &&& final(self).snake@ == old(self).snake@
                &&& final(self).foods@ == old(self).foods@
                &&& final(self).score == old(self).score
                &&& final(self).dice == old(self).dice
            },
            old(self).dice == Dice::Thread ==> final(self).dice == Dice::Thread,
            !old(self).game_over && !old(self).fatal(dir) ==> {
                let p = old(self).spec_head().moved(dir);
                &&& !final(self).game_over
                &&& final(self).direction == dir
                &&& final(self).spec_head() == p
                &&& (old(self).foods@.contains(p) ==> {
                    &&& final(self).snake@ == seq![p] + old(self).snake@
                    &&& final(self).score == old(self).score + 1
                    &&& forall|i: int| 0 <= i < old(self).foods@.len() && old(self).foods@[i] == p
                        && (forall|j: int| 0 <= j < i ==> old(self).foods@[j] != p) ==> refill_of(
                        old(self).spec_board(),
                        old(self).obstacles@,
                        final(self).snake@,
                        old(self).foods@.update(i, old(self).foods@.last()).drop_last(),
                        old(self).rules.foods,
                        final(self).foods@,
                    )
                    &&& forall|i: int| 0 <= i < old(self).foods@.len() && old(self).foods@[i] == p
                        && (forall|j: int| 0 <= j < i ==> old(self).foods@[j] != p) ==> (old(self).dice matches Dice::Seeded(
                        s,
                    ) ==> (final(self).foods@, final(self).dice) == ({
                        let (f, t) = refill_from(
                            old(self).spec_board(),
                            old(self).obstacles@,
                            final(self).snake@,
                            old(self).foods@.update(i, old(self).foods@.last()).drop_last(),
                            old(self).rules.foods as int,
                            s,
                        );
                        (f, Dice::Seeded(t))
                    }))
                })
                &&& (!old(self).foods@.contains(p) ==> {
                    &&& final(self).snake@ == (seq![p] + old(self).snake@).drop_last()
                    &&& final(self).score == old(self).score
                    &&& final(self).foods@ == old(self).foods@
                    &&& final(self).dice == old(self).dice
                })
            },
            old(self).placed() ==> final(self).placed(),
    {
        if self.game_over {
            return;
        }
        if self.is_fatal(dir) {
            self.game_over = true;
            self.direction = dir;
            return;
        }
        let p = self.next_head(dir);
        proof {
            assert(self.spec_board().spec_contains(p));
        }
        let eaten = position_of(&self.foods, p);
        let ghost old_snake = self.snake@;
        let ghost old_foods = self.foods@;
        self.snake.push_front(p);
        match eaten {
            Some(i) => {
                self.score += 1;
                self.foods.swap_remove(i);
                proof {
                    if old(self).placed() {
                        let base = self.foods@;
                        assert(base =~= old_foods.update(i as int, old_foods.last()).drop_last());
                        assert forall|a: int, c: int| 0 <= a < base.len() && 0 <= c < base.len() && a != c implies base[a] != base[c] by {
                            let ia = if a == i { old_foods.len() - 1 } else { a };
                            let ic = if c == i { old_foods.len() - 1 } else { c };
                            assert(base[a] == old_foods[ia]);
                            assert(base[c] == old_foods[ic]);
                        }
                        assert forall|j: int| 0 <= j < base.len() implies self.spec_board().spec_contains(#[trigger] base[j]) && !self.obstacles@.contains(base[j]) && !self.snake@.contains(base[j]) by {
                            let ij = if j == i { old_foods.len() - 1 } else { j };
                            assert(base[j] == old_foods[ij]);
                            assert(ij != i);
                            assert(old_foods.contains(old_foods[ij]));
                            if self.snake@.contains(base[j]) {
                                let k = choose|k: int| 0 <= k < self.snake@.len() && self.snake@[k] == base[j];
                                if k > 0 {
                                    assert(old_snake[k - 1] == base[j]);
                                    assert(old_snake.contains(base[j]));
                                }
                            }
                        }
                    }
                }
                self.refill_food();
            },
            None => {
                self.snake.pop_back();
                proof {
                    if old(self).placed() {
                        assert forall|q: Point| #[trigger] self.snake@.contains(q) implies q == p || old_snake.contains(q) by {
                            let k = choose|k: int| 0 <= k < self.snake@.len() && self.snake@[k] == q;
                            if k > 0 {
                                assert(old_snake[k - 1] == q);
                            }
                        }
                        lemma_placed_after_move(self.spec_board(), self.obstacles@, old_snake, self.snake@, self.foods@, p);
                    }
                }
            },
        }
        self.direction = dir;
        proof {
            crate::grid::lemma_in_board_steppable(self.spec_board(), p);
        }
    }
}

/// The centre cell, where a new snake's head starts.
pub open spec fn center_of(width: usize, height: usize) -> Point {
    Point { x: (width / 2) as i32, y: (height / 2) as i32 }
}

/// Two cells off the fence on every side.
pub open spec fn in_rock_band(width: usize, height: usize, p: Point) -> bool {
    2 <= p.x < width - 2 && 2 <= p.y < height - 2
}

/// The lane a new snake starts in: the three rows around the centre, from five cells left of it
/// to four cells right of it.
pub open spec fn in_spawn_lane(width: usize, height: usize, p: Point) -> bool {
    let c = center_of(width, height);
    -1 <= p.y - c.y <= 1 && c.x - 5 <= p.x <= c.x + 4
}

/// Chebyshev distance.
pub open spec fn chebyshev(a: Point, b: Point) -> int {
    let dx = if a.x >= b.x { a.x - b.x } else { b.x - a.x };
    let dy = if a.y >= b.y { a.y - b.y } else { b.y - a.y };
    if dx >= dy { dx } else { dy }
}

/// Every free cell of the board can be reached from the centre without crossing a rock.
pub open spec fn rocks_connected(width: usize, height: usize, obstacles: Seq<Point>) -> bool {
    let b = board_of(width, height);
    forall|p: Point| #![trigger obstacles.contains(p)] b.spec_contains(p) && !obstacles.contains(p)
        ==> reaches(b, obstacle_mask(b, obstacles), center_of(width, height), p)
}

/// The rock budget: about 5% of the cells.
pub open spec fn rock_budget(width: usize, height: usize) -> int {
    (width * height) * 5 / 100
}

/// The rocks come in clusters, numbered by `cid` in list order: a cluster is at most four rocks
/// within a 3 x 3 box, and rocks of different clusters are at least three cells apart (two free
/// cells between them).
pub open spec fn clustered(rocks: Seq<Point>, cid: Seq<int>) -> bool {
    &&& cid.len() == rocks.len()
    &&& forall|a: int, b: int| 0 <= a < b < rocks.len() ==> #[trigger] cid[a] <= #[trigger] cid[b]
    &&& forall|a: int, b: int| #![trigger cid[a], cid[b]] 0 <= a < b < rocks.len() && cid[a] == cid[b] ==> b - a < 4
        && chebyshev(rocks[a], rocks[b]) <= 2
    &&& forall|a: int, b: int| 0 <= a < b < rocks.len() && cid[a] != cid[b] ==> chebyshev(#[trigger] rocks[a], #[trigger] rocks[b]) >= 3
}

/// A rock layout as `reset` makes it: none on boards under 8 x 7; otherwise distinct rocks two
/// cells off the fence, out of the spawn lane, in clusters kept apart, at most the budget plus
/// one cluster, every free cell connected to the centre.
pub open spec fn layout_ok(width: usize, height: usize, obstacles: Seq<Point>) -> bool {
    &&& (width < 8 || height < 7) ==> obstacles.len() == 0
    &&& obstacles.no_duplicates()
    &&& exists|cid: Seq<int>| clustered(obstacles, cid)
    &&& forall|j: int| 0 <= j < obstacles.len() ==> in_rock_band(width, height, #[trigger] obstacles[j]) && !in_spawn_lane(width, height, obstacles[j])
    &&& obstacles.len() <= rock_budget(width, height) + 3
    &&& rocks_connected(width, height, obstacles)
}

/// The cell offsets of the seven rock cluster shapes.
pub open spec fn shape_offsets(s: int) -> Seq<(int, int)> {
    if s == 0 {
        seq![(0, 0)]
    } else if s == 1 {
        seq![(0, 0), (1, 0)]
    } else if s == 2 {
        seq![(0, 0), (0, 1)]
    } else if s == 3 {
        seq![(0, 0), (1, 0), (0, 1), (1, 1)]
    } else if s == 4 {
        seq![(0, 0), (1, 0), (2, 0)]
    } else if s == 5 {
        seq![(0, 0), (0, 1), (0, 2)]
    } else {
        seq![(0, 0), (1, 0), (0, 1)]
    }
}

/// The cells of cluster shape `s` placed at `(ox, oy)`.
fn shape_cells(s: usize, ox: i32, oy: i32) -> (cells: Vec<Point>)
    requires
        s < 7,
        0 <= ox <= i32::MAX - 2,
        0 <= oy <= i32::MAX - 2,
    ensures
        cells@.len() == shape_offsets(s as int).len(),
        1 <= cells@.len() <= 4,
        cells@.no_duplicates(),
        forall|j: int| 0 <= j < cells@.len() ==> #[trigger] cells@[j] == (Point {
            x: (ox + shape_offsets(s as int)[j].0) as i32,
            y: (oy + shape_offsets(s as int)[j].1) as i32,
        }),
        forall|j: int| 0 <= j < cells@.len() ==> ox <= (#[trigger] cells@[j]).x <= ox + 2 && oy <= cells@[j].y <= oy + 2,
{
    let mut v: Vec<Point> = Vec::new();
    v.push(Point { x: ox, y: oy });
    if s == 1 {
        v.push(Point { x: ox + 1, y: oy });
    } else if s == 2 {
        v.push(Point { x: ox, y: oy + 1 });
    } else if s == 3 {
        v.push(Point { x: ox + 1, y: oy });
        v.push(Point { x: ox, y: oy + 1 });
        v.push(Point { x: ox + 1, y: oy + 1 });
    } else if s == 4 {
        v.push(Point { x: ox + 1, y: oy });
        v.push(Point { x: ox + 2, y: oy });
    } else if s == 5 {
        v.push(Point { x: ox, y: oy + 1 });
        v.push(Point { x: ox, y: oy + 2 });
    } else if s == 6 {
        v.push(Point { x: ox + 1, y: oy });
        v.push(Point { x: ox, y: oy + 1 });
    }
    v
}

/// The indices of the free (unblocked) cells among the first `n`.
pub open spec fn free_index_set(blocked: Seq<bool>, n: int) -> Set<int> {
    Set::new(|i: int| 0 <= i < n && !blocked[i])
}

/// A flood fill that counts as many cells as there are free cells has reached every free cell.
proof fn lemma_flood_covers(b: Board, blocked: Seq<bool>, s: Point)
    requires
        b.wf(),
        blocked.len() == b.spec_cells(),
        b.spec_contains(s),
        !blocked[b.spec_idx(s)],
        reach_set_finite(b, blocked, s),
        flood_count(b, blocked, s) == free_index_set(blocked, b.spec_cells()).len(),
        free_index_set(blocked, b.spec_cells()).finite(),
    ensures
        forall|p: Point| b.spec_contains(p) && !blocked[b.spec_idx(p)] ==> reaches(b, blocked, s, p),
{
    let r = crate::grid::reach_set(b, blocked, s);
    let o = Set::new(|p: Point| b.spec_contains(p) && !blocked[b.spec_idx(p)]);
    let f = free_index_set(blocked, b.spec_cells());
    let idx = |p: Point| b.spec_idx(p);
    assert(o.map(idx) =~= f) by {
        assert forall|i: int| f.contains(i) implies o.map(idx).contains(i) by {
            lemma_point_of(b, i);
            assert(o.contains(b.point_of(i)));
        }
        assert forall|i: int| o.map(idx).contains(i) implies f.contains(i) by {
            let p = choose|p: Point| o.contains(p) && idx(p) == i;
            lemma_idx_bounds(b, p);
        }
    }
    assert(vstd::relations::injective_on(idx, o)) by {
        assert forall|p: Point, q: Point| o.contains(p) && o.contains(q) && #[trigger] idx(p) == #[trigger] idx(q) implies p == q by {
            lemma_idx_injective(b, p, q);
        }
    }
    crate::search::lemma_board_finite(b);
    vstd::set_lib::lemma_set_subset_finite(crate::search::board_set(b), o);
    vstd::set_lib::lemma_map_size(o, f, idx);
    assert(r.subset_of(o)) by {
        assert forall|p: Point| r.contains(p) implies o.contains(p) by {
            if p != s {
                let n = choose|n: nat| #[trigger] crate::grid::walk_of(b, blocked, s, p, n);
                if n == 0 {
                    let path = choose|path: Seq<Point>|
                        #[trigger] crate::grid::is_walk(b, blocked, path) && path.len() == 1 && path[0] == s && path.last() == p;
                } else {
                    crate::grid::lemma_walk_last_step(b, blocked, s, p, (n - 1) as nat);
                }
            }
        }
    }
    vstd::set_lib::lemma_subset_equality(r, o);
    assert forall|p: Point| b.spec_contains(p) && !blocked[b.spec_idx(p)] implies reaches(b, blocked, s, p) by {
        assert(o.contains(p));
        assert(r.contains(p));
    }
}

pub open spec fn reach_set_finite(b: Board, blocked: Seq<bool>, s: Point) -> bool {
    crate::grid::reach_set(b, blocked, s).finite()
}

/// With nothing blocked, every in-board cell can be reached from every other one.
proof fn lemma_open_board_connected(b: Board, blocked: Seq<bool>, s: Point, p: Point)
    requires
        b.wf(),
        blocked.len() == b.spec_cells(),
        forall|i: int| 0 <= i < b.spec_cells() ==> !blocked[i],
        b.spec_contains(s),
        b.spec_contains(p),
    ensures
        crate::grid::walk_of(b, blocked, s, p, manhattan(s, p) as nat),
        reaches(b, blocked, s, p),
    decreases manhattan(s, p),
{
    if p == s {
        crate::grid::lemma_walk_start(b, blocked, s);
    } else {
        let (m, d) = if p.x > s.x {
            (p.moved(Dir::Left), Dir::Right)
        } else if p.x < s.x {
            (p.moved(Dir::Right), Dir::Left)
        } else if p.y > s.y {
            (p.moved(Dir::Up), Dir::Down)
        } else {
            (p.moved(Dir::Down), Dir::Up)
        };
        assert(m.moved(d) == p);
        assert(manhattan(s, m) == manhattan(s, p) - 1);
        lemma_open_board_connected(b, blocked, s, m);
        lemma_idx_bounds(b, p);
        crate::grid::lemma_walk_extend(b, blocked, s, m, manhattan(s, m) as nat, p);
    }
}

/// Chebyshev distance of at least 3 from every rock of `placed`, computed without overflow.
fn clear_of(placed: &Vec<Point>, p: Point) -> (r: bool)
    ensures
        r == forall|j: int| 0 <= j < placed@.len() ==> chebyshev(#[trigger] placed@[j], p) >= 3,
{
    let mut i: usize = 0;
    while i < placed.len()
        invariant
            i <= placed@.len(),
            forall|j: int| 0 <= j < i ==> chebyshev(#[trigger] placed@[j], p) >= 3,
        decreases placed.len() - i,
    {
        let q = placed[i];
        let dx: i64 = if q.x >= p.x { q.x as i64 - p.x as i64 } else { p.x as i64 - q.x as i64 };
        let dy: i64 = if q.y >= p.y { q.y as i64 - p.y as i64 } else { p.y as i64 - q.y as i64 };
        let d = if dx >= dy { dx } else { dy };
        if d < 3 {
            assert(chebyshev(placed@[i as int], p) < 3);
            return false;
        }
        i += 1;
    }
    true
}

proof fn lemma_empty_layout(width: usize, height: usize)
    requires
        dims_fit(width, height),
    ensures
        rocks_connected(width, height, Seq::<Point>::empty()),
        clustered(Seq::<Point>::empty(), Seq::<int>::empty()),
{
    let b = board_of(width, height);
    let e = Seq::<Point>::empty();
    let m = obstacle_mask(b, e);
    assert forall|p: Point| #![trigger e.contains(p)] b.spec_contains(p) && !e.contains(p)
        implies reaches(b, m, center_of(width, height), p) by {
        lemma_open_board_connected(b, m, center_of(width, height), p);
    }
}

/// Cluster numbers `cid` followed by `n` rocks of cluster `ncl`.
pub open spec fn extend_ids(cid: Seq<int>, n: int, ncl: int) -> Seq<int> {
    cid + Seq::new(n as nat, |i: int| ncl)
}

/// A new cluster, kept apart from every rock placed before, extends a clustered layout.
proof fn lemma_clusters_extend(old: Seq<Point>, cells: Seq<Point>, cid: Seq<int>, ncl: int)
    requires
        clustered(old, cid),
        forall|a: int| 0 <= a < cid.len() ==> #[trigger] cid[a] < ncl,
        cells.len() <= 4,
        forall|j: int, l: int| 0 <= j < cells.len() && 0 <= l < cells.len() ==> chebyshev(#[trigger] cells[j], #[trigger] cells[l]) <= 2,
        forall|o: int, j: int| 0 <= o < old.len() && 0 <= j < cells.len() ==> chebyshev(#[trigger] old[o], #[trigger] cells[j]) >= 3,
    ensures
        clustered(old + cells, extend_ids(cid, cells.len() as int, ncl)),
        forall|a: int| 0 <= a < old.len() + cells.len() ==> #[trigger] extend_ids(cid, cells.len() as int, ncl)[a] < ncl + 1,
{
    let rocks = old + cells;
    let c2 = extend_ids(cid, cells.len() as int, ncl);
    let n = old.len();
    assert(c2.len() == rocks.len());
    assert forall|a: int, b: int| 0 <= a < b < rocks.len() implies #[trigger] c2[a] <= #[trigger] c2[b] by {
        if b < n {
            assert(c2[a] == cid[a] && c2[b] == cid[b]);
        } else if a < n {
            assert(c2[a] == cid[a] && c2[b] == ncl);
        }
    }
    assert forall|a: int, b: int| #![trigger c2[a], c2[b]] 0 <= a < b < rocks.len() && c2[a] == c2[b] implies b - a < 4
        && chebyshev(rocks[a], rocks[b]) <= 2 by {
        if b < n {
            assert(c2[a] == cid[a] && c2[b] == cid[b]);
            assert(rocks[a] == old[a] && rocks[b] == old[b]);
            assert(chebyshev(old[a], old[b]) <= 2);
            assert(b - a < 4);
        } else if a < n {
            assert(c2[a] == cid[a] && c2[b] == ncl);
            assert(cid[a] < ncl);
        } else {
            assert(rocks[a] == cells[a - n] && rocks[b] == cells[b - n]);
            assert(b - n < cells.len());
        }
    }
    assert forall|a: int, b: int| 0 <= a < b < rocks.len() && c2[a] != c2[b] implies chebyshev(#[trigger] rocks[a], #[trigger] rocks[b]) >= 3 by {
        if b < n {
            assert(c2[a] == cid[a] && c2[b] == cid[b]);
            assert(rocks[a] == old[a] && rocks[b] == old[b]);
        } else if a < n {
            assert(rocks[a] == old[a] && rocks[b] == cells[b - n]);
        } else {
            assert(c2[a] == ncl && c2[b] == ncl);
        }
    }
    assert forall|a: int| 0 <= a < old.len() + cells.len() implies #[trigger] c2[a] < ncl + 1 by {
        if a < n {
            assert(c2[a] == cid[a]);
        }
    }
    assert(clustered(rocks, c2));
}

/// Marking the cells of `cells` as rocks in a mask of `placed` gives the mask of `placed + cells`.
proof fn lemma_mask_extend(b: Board, placed: Seq<Point>, cells: Seq<Point>, walls: Seq<bool>, i: int)
    requires
        b.wf(),
        walls.len() == b.spec_cells(),
        0 <= i < b.spec_cells(),
    ensures
        obstacle_mask(b, placed + cells)[i] == (obstacle_mask(b, placed)[i] || cells.contains(b.point_of(i))),
{
    let all = placed + cells;
    let q = b.point_of(i);
    if all.contains(q) {
        let j = choose|j: int| 0 <= j < all.len() && all[j] == q;
        if j < placed.len() {
            assert(placed[j] == q);
        } else {
            assert(cells[j - placed.len()] == q);
        }
    }
    if placed.contains(q) {
        let j = choose|j: int| 0 <= j < placed.len() && placed[j] == q;
        assert(all[j] == q);
    }
    if cells.contains(q) {
        let j = choose|j: int| 0 <= j < cells.len() && cells[j] == q;
        assert(all[placed.len() + j] == q);
    }
}

/// The cells of cluster shape `s` placed at `(ox, oy)`.
pub open spec fn cluster_cells(s: int, ox: int, oy: int) -> Seq<Point> {
    Seq::new(shape_offsets(s).len(), |j: int| Point { x: (ox + shape_offsets(s)[j].0) as i32, y: (oy + shape_offsets(s)[j].1) as i32 })
}

/// The centre of a board, where a new snake's head starts.
pub open spec fn board_center(b: Board) -> Point {
    Point { x: (b.w / 2) as i32, y: (b.h / 2) as i32 }
}

/// A cell a new cluster may take: two cells off the fence, out of the spawn lane, and at least
/// three cells from every rock placed so far.
pub open spec fn cell_fits(b: Board, rocks: Seq<Point>, p: Point) -> bool {
    &&& 2 <= p.x < b.w - 2
    &&& 2 <= p.y < b.h - 2
    &&& !(-1 <= p.y - b.h / 2 <= 1 && b.w / 2 - 5 <= p.x <= b.w / 2 + 4)
    &&& forall|o: int| 0 <= o < rocks.len() ==> chebyshev(#[trigger] rocks[o], p) >= 3
}

/// The rocks after trying cluster shape `s` at `(ox, oy)`: the cluster is added when every cell
/// of it fits and, with it, a flood fill from the centre still reaches every free cell (counts as
/// many cells as are free); otherwise the rocks stay as they were.
pub open spec fn place_spec(b: Board, rocks: Seq<Point>, s: int, ox: int, oy: int) -> Seq<Point> {
    let c = cluster_cells(s, ox, oy);
    if (forall|j: int| 0 <= j < c.len() ==> cell_fits(b, rocks, #[trigger] c[j])) && flood_count(
        b,
        obstacle_mask(b, rocks + c),
        board_center(b),
    ) == b.spec_cells() - rocks.len() - c.len() {
        rocks + c
    } else {
        rocks
    }
}

/// What a rock layout keeps while clusters are added: distinct rocks in the rock band and out of
/// the spawn lane, one blocked cell each, every free cell connected to the centre, and clusters
/// kept apart.
pub open spec fn rocks_fine(b: Board, rocks: Seq<Point>) -> bool {
    let w = b.w as usize;
    let h = b.h as usize;
    &&& rocks.no_duplicates()
    &&& forall|j: int| 0 <= j < rocks.len() ==> in_rock_band(w, h, #[trigger] rocks[j]) && !in_spawn_lane(w, h, rocks[j])
    &&& free_index_set(obstacle_mask(b, rocks), b.spec_cells()).finite()
    &&& free_index_set(obstacle_mask(b, rocks), b.spec_cells()).len() == b.spec_cells() - rocks.len()
    &&& rocks_connected(w, h, rocks)
    &&& exists|cid: Seq<int>| clustered(rocks, cid)
}

/// Tries cluster shape `shape` (one of the seven) at `(ox, oy)` on a board holding `rocks`: the
/// rocks with the cluster added when it fits, kept apart from the other rocks, and leaves every
/// free cell reachable from the centre; the rocks unchanged otherwise.
pub fn place_cluster(board: Board, rocks: &Vec<Point>, shape: usize, ox: usize, oy: usize) -> (r: Vec<Point>)
    requires
        board.wf(),
        board.w >= 8,
        board.h >= 7,
        shape < 7,
        ox <= i32::MAX - 2,
        oy <= i32::MAX - 2,
    ensures
        r@ == place_spec(board, rocks@, shape as int, ox as int, oy as int),
        rocks_fine(board, rocks@) ==> rocks_fine(board, r@),
        r@.len() <= rocks@.len() + 4,
{
    let ghost w = board.w as usize;
    let ghost h = board.h as usize;
    let ghost c = cluster_cells(shape as int, ox as int, oy as int);
    let cx = board.w / 2;
    let cy = board.h / 2;
    let start = Point { x: cx, y: cy };
    let new_cells = shape_cells(shape, ox as i32, oy as i32);
    assert(new_cells@ =~= c);
    proof {
        assert(board == board_of(w, h));
        assert(start == board_center(board) && start == center_of(w, h));
    }
    let mut fits = true;
    let mut k: usize = 0;
    while k < new_cells.len()
        invariant
            board.wf(),
            board.w >= 8,
            board.h >= 7,
            cx == board.w / 2,
            cy == board.h / 2,
            ox <= i32::MAX - 2,
            oy <= i32::MAX - 2,
            forall|j: int| 0 <= j < new_cells@.len() ==> ox <= (#[trigger] new_cells@[j]).x <= ox + 2 && oy <= new_cells@[j].y <= oy + 2,
            k <= new_cells@.len(),
            fits == forall|j: int| 0 <= j < k ==> cell_fits(board, rocks@, #[trigger] new_cells@[j]),
        decreases new_cells@.len() - k,
    {
        let p = new_cells[k];
        let dy = p.y - cy;
        let ok = p.x >= 2 && p.x < board.w - 2 && p.y >= 2 && p.y < board.h - 2
            && !(dy >= -1 && dy <= 1 && p.x >= cx - 5 && p.x <= cx + 4)
            && clear_of(rocks, p);
        proof {
            assert(ok == cell_fits(board, rocks@, new_cells@[k as int]));
        }
        fits = fits && ok;
        k += 1;
    }
    let cells = board.cells();
    if !fits || rocks.len() > cells || new_cells.len() > cells - rocks.len() {
        return copy_points(rocks);
    }
    let free = cells - rocks.len() - new_cells.len();
    let mut all = copy_points(rocks);
    let mut k: usize = 0;
    while k < new_cells.len()
        invariant
            k <= new_cells@.len(),
            all@ == rocks@ + new_cells@.subrange(0, k as int),
        decreases new_cells@.len() - k,
    {
        all.push(new_cells[k]);
        proof {
            assert(new_cells@.subrange(0, k + 1) =~= new_cells@.subrange(0, k as int).push(new_cells@[k as int]));
        }
        k += 1;
    }
    proof {
        assert(new_cells@.subrange(0, new_cells@.len() as int) =~= new_cells@);
    }
    let walls = build_walls(board, &all);
    let mut seen: Vec<bool> = Vec::new();
    let mut i: usize = 0;
    while i < cells
        invariant
            i <= cells,
            seen@.len() == i,
        decreases cells - i,
    {
        seen.push(false);
        i += 1;
    }
    let mut queue: Vec<Point> = Vec::new();
    let area = crate::search::flood_fill_area(board, start, &walls, &mut seen, &mut queue);
    if area != free {
        return copy_points(rocks);
    }
    proof {
        if rocks_fine(board, rocks@) {
            lemma_place_keeps_fine(board, rocks@, new_cells@, walls@, ox as int, oy as int);
        }
    }
    all
}

/// Adding a cluster that fits and keeps the board connected keeps a layout fine.
proof fn lemma_place_keeps_fine(b: Board, rocks: Seq<Point>, cells: Seq<Point>, walls: Seq<bool>, ox: int, oy: int)
    requires
        b.wf(),
        b.w >= 8,
        b.h >= 7,
        rocks_fine(b, rocks),
        1 <= cells.len() <= 4,
        cells.no_duplicates(),
        forall|j: int| 0 <= j < cells.len() ==> ox <= (#[trigger] cells[j]).x <= ox + 2 && oy <= cells[j].y <= oy + 2,
        forall|j: int| 0 <= j < cells.len() ==> cell_fits(b, rocks, #[trigger] cells[j]),
        walls == obstacle_mask(b, rocks + cells),
        flood_count(b, walls, board_center(b)) == b.spec_cells() - rocks.len() - cells.len(),
        reach_set_finite(b, walls, board_center(b)),
    ensures
        rocks_fine(b, rocks + cells),
{
    let w = b.w as usize;
    let h = b.h as usize;
    let all = rocks + cells;
    let start = board_center(b);
    assert(b == board_of(w, h));
    assert(start == center_of(w, h));
    assert forall|j: int| 0 <= j < cells.len() implies in_rock_band(w, h, #[trigger] cells[j]) && !in_spawn_lane(w, h, cells[j]) by {
        assert(cell_fits(b, rocks, cells[j]));
    }
    assert forall|j: int| 0 <= j < cells.len() implies !rocks.contains(#[trigger] cells[j]) by {
        if rocks.contains(cells[j]) {
            let o = choose|o: int| 0 <= o < rocks.len() && rocks[o] == cells[j];
            assert(cell_fits(b, rocks, cells[j]));
            assert(chebyshev(rocks[o], cells[j]) >= 3);
        }
    }
    assert(all.no_duplicates()) by {
        assert forall|a: int, c: int| 0 <= a < all.len() && 0 <= c < all.len() && a != c implies all[a] != all[c] by {
            if a < rocks.len() && c >= rocks.len() {
                assert(!rocks.contains(cells[c - rocks.len()]));
                assert(rocks.contains(rocks[a]));
            } else if c < rocks.len() && a >= rocks.len() {
                assert(!rocks.contains(cells[a - rocks.len()]));
                assert(rocks.contains(rocks[c]));
            } else if a >= rocks.len() && c >= rocks.len() {
                assert(cells[a - rocks.len()] != cells[c - rocks.len()]);
            }
        }
    }
    assert forall|j: int| 0 <= j < all.len() implies in_rock_band(w, h, #[trigger] all[j]) && !in_spawn_lane(w, h, all[j]) by {
        if j >= rocks.len() {
            assert(all[j] == cells[j - rocks.len()]);
        } else {
            assert(all[j] == rocks[j]);
        }
    }
    assert forall|j: int| 0 <= j < cells.len() implies b.spec_contains(#[trigger] cells[j]) by {
        assert(in_rock_band(w, h, cells[j]));
    }
    lemma_free_shrinks(b, rocks, cells, obstacle_mask(b, rocks), walls);
    lemma_idx_bounds(b, start);
    lemma_mask_at(b, all, start);
    assert(!all.contains(start)) by {
        if all.contains(start) {
            let j = choose|j: int| 0 <= j < all.len() && all[j] == start;
            assert(!in_spawn_lane(w, h, all[j]));
        }
    }
    assert(free_index_set(walls, b.spec_cells()).len() == b.spec_cells() - all.len());
    lemma_flood_covers(b, walls, start);
    assert forall|p: Point| #![trigger all.contains(p)] b.spec_contains(p) && !all.contains(p)
        implies reaches(b, obstacle_mask(b, all), center_of(w, h), p) by {
        lemma_mask_at(b, all, p);
    }
    let cid = choose|cid: Seq<int>| clustered(rocks, cid);
    let ncl: int = if cid.len() == 0 { 0 } else { cid.last() + 1 };
    assert forall|a: int| 0 <= a < cid.len() implies #[trigger] cid[a] < ncl by {
        if a < cid.len() - 1 {
            assert(cid[a] <= cid[cid.len() - 1]);
        }
    }
    assert forall|j: int, l: int| 0 <= j < cells.len() && 0 <= l < cells.len()
        implies chebyshev(#[trigger] cells[j], #[trigger] cells[l]) <= 2 by {}
    assert forall|o: int, j: int| 0 <= o < rocks.len() && 0 <= j < cells.len()
        implies chebyshev(#[trigger] rocks[o], #[trigger] cells[j]) >= 3 by {
        assert(cell_fits(b, rocks, cells[j]));
    }
    lemma_clusters_extend(rocks, cells, cid, ncl);
}

/// The rocks after the clusters drawn in `draws` (shape, column, row) are tried in turn.
pub open spec fn rocks_after(b: Board, draws: Seq<(int, int, int)>) -> Seq<Point>
    decreases draws.len(),
{
    if draws.len() == 0 {
        Seq::empty()
    } else {
        let d = draws.last();
        place_spec(b, rocks_after(b, draws.drop_last()), d.0, d.1, d.2)
    }
}

/// The draws of a rock layout: at most 400, each a shape of the seven and a position two cells
/// off the fence, drawn while the rocks are under the budget and no more once it is reached.
pub open spec fn draws_ok(b: Board, draws: Seq<(int, int, int)>) -> bool {
    let budget = rock_budget(b.w as usize, b.h as usize);
    &&& draws.len() <= 400
    &&& forall|k: int| 0 <= k < draws.len() ==> {
        &&& 0 <= (#[trigger] draws[k]).0 < 7
        &&& 2 <= draws[k].1 < b.w - 2
        &&& 2 <= draws[k].2 < b.h - 2
        &&& rocks_after(b, draws.subrange(0, k)).len() < budget
    }
    &&& draws.len() < 400 ==> rocks_after(b, draws).len() >= budget
}

/// The rock layout of a round on a `width` x `height` board: none under 8 x 7, and otherwise the
/// rocks that trying clusters at random draws leaves.
pub open spec fn rocks_drawn(width: usize, height: usize, rocks: Seq<Point>) -> bool {
    &&& (width < 8 || height < 7) ==> rocks.len() == 0
    &&& !(width < 8 || height < 7) ==> exists|draws: Seq<(int, int, int)>|
        draws_ok(board_of(width, height), draws) && rocks == #[trigger] rocks_after(board_of(width, height), draws)
}

/// The rocks after attempt `k` on, with `rocks` placed so far and the seeded generator in state
/// `s`: while under 400 attempts and under budget, each attempt draws a shape, a column and a row
/// and tries the cluster there; and the state after.
pub open spec fn rocks_gen(b: Board, rocks: Seq<Point>, k: int, s: u64) -> (Seq<Point>, u64)
    decreases 400 - k,
{
    if k >= 400 || rocks.len() >= rock_budget(b.w as usize, b.h as usize) {
        (rocks, s)
    } else {
        let (shape, s1) = seeded_draw(s, 7);
        let (x, s2) = seeded_draw(s1, b.w - 4);
        let (y, s3) = seeded_draw(s2, b.h - 4);
        rocks_gen(b, place_spec(b, rocks, shape, x + 2, y + 2), k + 1, s3)
    }
}

/// The rock layout the seeded generator in state `s` draws for board `b`, and the state after:
/// none (and no draw) under 8 x 7.
pub open spec fn layout_from(b: Board, s: u64) -> (Seq<Point>, u64) {
    if b.w < 8 || b.h < 7 {
        (Seq::empty(), s)
    } else {
        rocks_gen(b, Seq::empty(), 0, s)
    }
}

/// A fresh round drawn by the seeded generator in state `s`: the snake, the rocks (when the rules
/// ask for rocks), the foods, and the state after.
pub open spec fn round_from(width: usize, height: usize, rules: Rules, s: u64) -> (Seq<Point>, Seq<Point>, Seq<Point>, u64) {
    let b = board_of(width, height);
    let snake = fresh_snake(width, height);
    let (rocks, s1) = if rules.obstacles { layout_from(b, s) } else { (Seq::<Point>::empty(), s) };
    let (foods, s2) = refill_from(b, rocks, snake, Seq::<Point>::empty(), rules.foods as int, s1);
    (snake, rocks, foods, s2)
}

impl SnakeGame {
    /// Rock clusters that keep every free cell connected, stay two cells off the border, keep at
    /// least two cells between clusters, and leave the spawn lane clear: up to 400 random draws of
    /// a shape and a position, each tried with `place_cluster`, while the rocks are under budget.
    fn generate_obstacles(&self, dice: &mut Dice) -> (rocks: Vec<Point>)
        requires
            self.wf(),
        ensures
            layout_ok(self.width, self.height, rocks@),
            rocks_drawn(self.width, self.height, rocks@),
            match *old(dice) {
                Dice::Seeded(s) => (rocks@, *final(dice)) == ({
                    let (r, t) = layout_from(self.spec_board(), s);
                    (r, Dice::Seeded(t))
                }),
                Dice::Thread => *final(dice) == Dice::Thread,
            },
    {
        let board = self.board();
        let ghost w = self.width;
        let ghost h = self.height;
        if board.w < 8 || board.h < 7 {
            proof {
                lemma_empty_layout(self.width, self.height);
            }
            return Vec::new();
        }
        let cells = board.cells();
        let budget = cells / 20;
        let mut placed: Vec<Point> = Vec::new();
        proof {
            lemma_empty_layout(w, h);
            assert(placed@ =~= Seq::<Point>::empty());
            let m = obstacle_mask(board, placed@);
            assert(free_index_set(m, cells as int) =~= vstd::set_lib::set_int_range(0, cells as int));
            vstd::set_lib::lemma_int_range(0, cells as int);
            assert(rocks_fine(board, placed@));
            let c = cells as int;
            let q = c / 20;
            vstd::arithmetic::div_mod::lemma_fundamental_div_mod(c, 20);
            vstd::arithmetic::div_mod::lemma_fundamental_div_mod_converse(c * 5, 100, q, (c % 20) * 5);
            assert(budget == rock_budget(w, h));
            assert(board == board_of(w, h));
        }
        let ghost mut draws: Seq<(int, int, int)> = Seq::empty();
        let mut attempt: usize = 0;
        while attempt < 400 && placed.len() < budget
            invariant
                self.wf(),
                board == self.spec_board(),
                board == board_of(w, h),
                board.wf(),
                w == self.width,
                h == self.height,
                board.w >= 8,
                board.h >= 7,
                cells == board.spec_cells(),
                budget == rock_budget(w, h),
                rocks_fine(board, placed@),
                placed@.len() <= budget + 3,
                attempt == draws.len(),
                attempt <= 400,
                placed@ == rocks_after(board, draws),
                match *old(dice) {
                    Dice::Seeded(s0) => *dice matches Dice::Seeded(s) && rocks_gen(board, placed@, attempt as int, s)
                        == layout_from(board, s0),
                    Dice::Thread => *dice == Dice::Thread,
                },
                forall|k: int| 0 <= k < draws.len() ==> {
                    &&& 0 <= (#[trigger] draws[k]).0 < 7
                    &&& 2 <= draws[k].1 < board.w - 2
                    &&& 2 <= draws[k].2 < board.h - 2
                    &&& rocks_after(board, draws.subrange(0, k)).len() < budget
                },
            decreases 400 - attempt,
        {
            let shape = dice.below(7);
            let ox = dice.below((board.w - 4) as usize) + 2;
            let oy = dice.below((board.h - 4) as usize) + 2;
            let ghost before = draws;
            proof {
                assert(placed@ == rocks_after(board, draws));
            }
            placed = place_cluster(board, &placed, shape, ox, oy);
            proof {
                draws = draws.push((shape as int, ox as int, oy as int));
                assert(draws.drop_last() =~= before);
                assert forall|k: int| 0 <= k < draws.len() implies {
                    &&& 0 <= (#[trigger] draws[k]).0 < 7
                    &&& 2 <= draws[k].1 < board.w - 2
                    &&& 2 <= draws[k].2 < board.h - 2
                    &&& rocks_after(board, draws.subrange(0, k)).len() < budget
                } by {
                    if k < before.len() {
                        assert(draws.subrange(0, k) =~= before.subrange(0, k));
                        assert(draws[k] == before[k]);
                    } else {
                        assert(draws.subrange(0, k) =~= before);
                    }
                }
            }
            attempt += 1;
        }
        proof {
            let cid = choose|cid: Seq<int>| clustered(placed@, cid);
            assert(budget <= rock_budget(w, h));
            assert(draws_ok(board, draws));
            assert(rocks_drawn(w, h, placed@));
        }
        placed
    }
}

/// Marking `cells` (distinct, all free before) as rocks takes exactly their number off the free
/// cell count.
proof fn lemma_free_shrinks(b: Board, placed: Seq<Point>, cells: Seq<Point>, before: Seq<bool>, after: Seq<bool>)
    requires
        b.wf(),
        before == obstacle_mask(b, placed),
        after == obstacle_mask(b, placed + cells),
        cells.no_duplicates(),
        forall|j: int| 0 <= j < cells.len() ==> b.spec_contains(#[trigger] cells[j]),
        forall|j: int| 0 <= j < cells.len() ==> !placed.contains(#[trigger] cells[j]),
        free_index_set(before, b.spec_cells()).finite(),
    ensures
        free_index_set(after, b.spec_cells()).finite(),
        free_index_set(after, b.spec_cells()).len() == free_index_set(before, b.spec_cells()).len() - cells.len(),
    decreases cells.len(),
{
    if cells.len() == 0 {
        assert(placed + cells =~= placed);
        assert(after =~= before);
    } else {
        let rest = cells.drop_last();
        let last = cells.last();
        let mid = obstacle_mask(b, placed + rest);
        assert forall|j: int| 0 <= j < rest.len() implies !placed.contains(#[trigger] rest[j]) by {
            assert(rest[j] == cells[j]);
        }
        assert(rest.no_duplicates());
        assert forall|j: int| 0 <= j < rest.len() implies b.spec_contains(#[trigger] rest[j]) by {
            assert(rest[j] == cells[j]);
        }
        lemma_free_shrinks(b, placed, rest, before, mid);
        assert(placed + cells =~= (placed + rest).push(last));
        lemma_idx_bounds(b, last);
        lemma_idx_inverse(b, last);
        let li = b.spec_idx(last);
        assert(!(placed + rest).contains(last)) by {
            if (placed + rest).contains(last) {
                let j = choose|j: int| 0 <= j < (placed + rest).len() && (placed + rest)[j] == last;
                if j < placed.len() {
                    assert(placed.contains(last));
                    assert(cells[cells.len() - 1] == last);
                } else {
                    assert(rest[j - placed.len()] == cells[j - placed.len()]);
                    assert(cells[cells.len() - 1] == last);
                }
            }
        }
        assert(free_index_set(after, b.spec_cells()) =~= free_index_set(mid, b.spec_cells()).remove(li)) by {
            assert((placed + rest) + seq![last] =~= placed + cells);
            assert forall|i: int| 0 <= i < b.spec_cells() implies after[i] == (mid[i] || i == li) by {
                lemma_point_of(b, i);
                lemma_mask_extend(b, placed + rest, seq![last], after, i);
                assert(seq![last].contains(b.point_of(i)) <==> b.point_of(i) == last) by {
                    if seq![last].contains(b.point_of(i)) {
                        let k = choose|k: int| 0 <= k < 1 && seq![last][k] == b.point_of(i);
                    }
                    if b.point_of(i) == last {
                        assert(seq![last][0] == last);
                    }
                }
                if b.point_of(i) == last {
                    assert(b.spec_idx(b.point_of(i)) == i);
                }
            }
        }
        assert(free_index_set(mid, b.spec_cells()).contains(li)) by {
            lemma_mask_at(b, placed + rest, last);
        }
    }
}

/// The snake of a fresh round: three cells in the middle of the board, head first, facing right.
pub open spec fn fresh_snake(width: usize, height: usize) -> Seq<Point> {
    let c = center_of(width, height);
    seq![c, Point { x: (c.x - 1) as i32, y: c.y }, Point { x: (c.x - 2) as i32, y: c.y }]
}

impl SnakeGame {
    /// What `reset` leaves: a fresh snake, no score, a rock layout under the rules, and the foods
    /// topped up on free cells.
    pub open spec fn fresh_round(&self) -> bool {
        &&& self.snake@ == fresh_snake(self.width, self.height)
        &&& self.direction == Dir::Right
        &&& self.score == 0
        &&& !self.game_over
        &&& (self.rules.obstacles ==> layout_ok(self.width, self.height, self.obstacles@))
        &&& (self.rules.obstacles ==> rocks_drawn(self.width, self.height, self.obstacles@))
        &&& (!self.rules.obstacles ==> self.obstacles@.len() == 0)
        &&& refill_of(self.spec_board(), self.obstacles@, self.snake@, Seq::<Point>::empty(), self.rules.foods, self.foods@)
        &&& self.placed()
    }

    pub fn new(width: usize, height: usize) -> (g: Self)
        requires
            dims_fit(width, height),
        ensures
            g.wf(),
            g.width == width,
            g.height == height,
            g.rules == (Rules { foods: 5, obstacles: true }),
            g.fresh_round(),
    {
        Self::with_rules(width, height, Rules::default())
    }

    pub fn with_rules(width: usize, height: usize, rules: Rules) -> (g: Self)
        requires
            dims_fit(width, height),
        ensures
            g.wf(),
            g.width == width,
            g.height == height,
            g.rules == rules,
            g.fresh_round(),
            g.dice == Dice::Thread,
    {
        Self::start(width, height, rules, Dice::Thread)
    }

    /// A game whose rock layouts and foods come from the seeded generator, starting in state
    /// `seed`: the same seed and the same moves give the same positions.
    pub fn seeded(width: usize, height: usize, rules: Rules, seed: u64) -> (g: Self)
        requires
            dims_fit(width, height),
        ensures
            g.wf(),
            g.width == width,
            g.height == height,
            g.rules == rules,
            g.fresh_round(),
            g.dice == Dice::Seeded(round_from(width, height, rules, seed).3),
            g.snake@ == round_from(width, height, rules, seed).0,
            g.obstacles@ == round_from(width, height, rules, seed).1,
            g.foods@ == round_from(width, height, rules, seed).2,
    {
        Self::start(width, height, rules, Dice::Seeded(seed))
    }

    fn start(width: usize, height: usize, rules: Rules, dice: Dice) -> (g: Self)
        requires
            dims_fit(width, height),
        ensures
            g.wf(),
            g.width == width,
            g.height == height,
            g.rules == rules,
            g.fresh_round(),
            dice == Dice::Thread ==> g.dice == Dice::Thread,
            dice matches Dice::Seeded(seed) ==> {
                let r = round_from(width, height, rules, seed);
                &&& g.dice == Dice::Seeded(r.3)
                &&& g.snake@ == r.0
                &&& g.obstacles@ == r.1
                &&& g.foods@ == r.2
            },
    {
        let board = Board::new(width, height);
        let empty: Vec<Point> = Vec::new();
        let walls = build_walls(board, &empty);
        let mut snake: VecDeque<Point> = VecDeque::new();
        snake.push_back(Point { x: (width / 2) as i32, y: (height / 2) as i32 });
        let mut game = Self {
            width,
            height,
            snake,
            direction: Dir::Right,
            score: 0,
            game_over: false,
            foods: Vec::new(),
            obstacles: empty,
            rules,
            walls,
            dice,
        };
        game.reset();
        game
    }

    /// A fresh round: new snake in the middle, a new rock layout and a full set of foods.
    pub fn reset(&mut self)
        requires
            old(self).wf(),
        ensures
            final(self).wf(),
            final(self).width == old(self).width,
            final(self).height == old(self).height,
            final(self).rules == old(self).rules,
            final(self).fresh_round(),
            old(self).dice == Dice::Thread ==> final(self).dice == Dice::Thread,
            old(self).dice matches Dice::Seeded(seed) ==> {
                let r = round_from(old(self).width, old(self).height, old(self).rules, seed);
                &&& final(self).dice == Dice::Seeded(r.3)
                &&& final(self).snake@ == r.0
                &&& final(self).obstacles@ == r.1
                &&& final(self).foods@ == r.2
            },
    {
        let cx = (self.width / 2) as i32;
        let cy = (self.height / 2) as i32;
        let mut snake: VecDeque<Point> = VecDeque::new();
        snake.push_back(Point { x: cx, y: cy });
        snake.push_back(Point { x: cx - 1, y: cy });
        snake.push_back(Point { x: cx - 2, y: cy });
        self.snake = snake;
        self.direction = Dir::Right;
        self.score = 0;
        self.game_over = false;
        self.foods.clear();
        proof {
            assert(self.snake@ =~= fresh_snake(self.width, self.height));
        }
        let rocks = if self.rules.obstacles {
            let mut d = self.dice;
            let r = self.generate_obstacles(&mut d);
            self.dice = d;
            r
        } else {
            Vec::new()
        };
        self.set_obstacles(rocks);
        proof {
            assert(self.placed());
        }
        self.refill_food();
    }

    /// A game in exactly the position a snapshot describes.
    pub fn from_snapshot(snap: &GameSnapshot) -> (g: Self)
        requires
            snap.wf(),
        ensures
            g.wf(),
            g.width == snap.width,
            g.height == snap.height,
            g.snake@ == snap.snake@,
            g.direction == Dir::Right,
            g.score == 0,
            !g.game_over,
            g.foods@ == snap.foods@,
            g.obstacles@ == snap.obstacles@,
            g.rules == (Rules { foods: if snap.foods@.len() > 1 { snap.foods@.len() as usize } else { 1 }, obstacles: snap.obstacles@.len() > 0 }),
    {
        let mut snake: VecDeque<Point> = VecDeque::new();
        let mut i: usize = 0;
        while i < snap.snake.len()
            invariant
                i <= snap.snake@.len(),
                snake@ == snap.snake@.subrange(0, i as int),
            decreases snap.snake@.len() - i,
        {
            snake.push_back(snap.snake[i]);
            i += 1;
        }
        proof {
            assert(snap.snake@.subrange(0, snap.snake@.len() as int) =~= snap.snake@);
        }
        let n = snap.foods.len();
        Self {
            width: snap.width,
            height: snap.height,
            snake,
            direction: Dir::Right,
            score: 0,
            game_over: false,
            foods: copy_points(&snap.foods),
            obstacles: copy_points(&snap.obstacles),
            rules: Rules { foods: if n > 1 { n } else { 1 }, obstacles: snap.obstacles.len() > 0 },
            walls: copy_flags(&snap.walls),
            dice: Dice::Thread,
        }
    }
}

/// An owned copy of what the inference thread needs to see.
#[derive(Clone, Debug)]
pub struct GameSnapshot {
    pub width: usize,
    pub height: usize,
    /// Head first.
    pub snake: Vec<Point>,
    pub foods: Vec<Point>,
    pub obstacles: Vec<Point>,
    /// One flag per cell (row by row), set where a rock lies.
    pub walls: Vec<bool>,
}

/// Rocks and the body without its tail: the cells a path to food has to walk around.
pub open spec fn food_block_mask(b: Board, obstacles: Seq<Point>, snake: Seq<Point>) -> Seq<bool> {
    body_mask(b, obstacles, snake, if snake.len() > 0 { snake.len() - 1 } else { 0 })
}

/// The path distance from `q` to its nearest food, walking around rocks and the body; `None`
/// when no food can be reached (or `q` is off the board).
pub open spec fn food_distance(b: Board, blocked: Seq<bool>, foods: Seq<Point>, q: Point) -> Option<int> {
    if b.spec_contains(q) && exists|n: nat| #[trigger] src_walk(b, blocked, foods, q, n) {
        Some((choose|d: nat| crate::search::shortest(b, blocked, foods, q, d)) as int)
    } else {
        None
    }
}

/// The smallest of the present values of `a`, if any.
pub open spec fn least_present(a: Seq<Option<int>>) -> Option<int>
    decreases a.len(),
{
    if a.len() == 0 {
        None
    } else {
        match (least_present(a.drop_last()), a.last()) {
            (None, x) => x,
            (Some(m), None) => Some(m),
            (Some(m), Some(v)) => Some(if v < m { v } else { m }),
        }
    }
}

/// Which of the four moves bring the head closer to food: with some food in path reach, the moves
/// onto a cell of least path distance; otherwise the moves that shorten the Manhattan distance
/// to the first closest food; with no food at all, none.
pub open spec fn toward_spec(b: Board, blocked: Seq<bool>, foods: Seq<Point>, h: Point) -> Seq<bool> {
    let vals = Seq::new(4, |k: int| food_distance(b, blocked, foods, h.moved(dir_at(k))));
    match least_present(vals) {
        Some(m) => Seq::new(4, |k: int| vals[k] == Some(m)),
        None => match closest_food(foods, h) {
            Some(f) => Seq::new(4, |k: int| manhattan(f, h.moved(dir_at(k))) < manhattan(f, h)),
            None => Seq::new(4, |k: int| false),
        },
    }
}

/// The cells the nearest-food search may step on: open for the food distances, and with some
/// food in path reach.
pub open spec fn nearest_mask(b: Board, obstacles: Seq<Point>, snake: Seq<Point>, foods: Seq<Point>) -> Seq<bool> {
    let m = food_block_mask(b, obstacles, snake);
    Seq::new(b.spec_cells() as nat, |i: int| m[i] || !(exists|n: nat| #[trigger] src_walk(b, m, foods, b.point_of(i), n)))
}

/// The shortest distance is unique.
proof fn lemma_shortest_unique(b: Board, blocked: Seq<bool>, sources: Seq<Point>, p: Point, d: nat, e: nat)
    requires
        crate::search::shortest(b, blocked, sources, p, d),
        crate::search::shortest(b, blocked, sources, p, e),
    ensures
        d == e,
{
    if d < e {
        assert(!src_walk(b, blocked, sources, p, d));
    }
    if e < d {
        assert(!src_walk(b, blocked, sources, p, e));
    }
}

impl GameSnapshot {
    pub open spec fn spec_board(&self) -> Board {
        board_of(self.width, self.height)
    }

    /// The rock flags agree with the rock list, the board fits the cell numbering, and the snake
    /// has a head that can take a step.
    pub open spec fn wf(&self) -> bool {
        &&& dims_fit(self.width, self.height)
        &&& self.walls@ == obstacle_mask(self.spec_board(), self.obstacles@)
        &&& self.snake@.len() >= 1
        &&& self.snake@[0].steppable()
    }

    pub open spec fn spec_head(&self) -> Point {
        self.snake@[0]
    }

    pub open spec fn fatal(&self, dir: Dir) -> bool {
        fatal_spec(self.spec_board(), self.obstacles@, self.snake@, self.foods@, self.spec_head().moved(dir))
    }

    pub open spec fn block_mask(&self) -> Seq<bool> {
        food_block_mask(self.spec_board(), self.obstacles@, self.snake@)
    }

    pub fn from_game(game: &SnakeGame) -> (s: Self)
        requires
            game.wf(),
        ensures
            s.wf(),
            s.width == game.width,
            s.height == game.height,
            s.snake@ == game.snake@,
            s.foods@ == game.foods@,
            s.obstacles@ == game.obstacles@,
    {
        let mut snake: Vec<Point> = Vec::new();
        let mut i: usize = 0;
        while i < game.snake.len()
            invariant
                i <= game.snake@.len(),
                snake@ == game.snake@.subrange(0, i as int),
            decreases game.snake@.len() - i,
        {
            snake.push(game.snake[i]);
            i += 1;
        }
        proof {
            assert(game.snake@.subrange(0, game.snake@.len() as int) =~= game.snake@);
        }
        Self {
            width: game.width,
            height: game.height,
            snake,
            foods: copy_points(&game.foods),
            obstacles: copy_points(&game.obstacles),
            walls: copy_flags(&game.walls),
        }
    }

    pub fn head(&self) -> (p: Point)
        requires
            self.wf(),
        ensures
            p == self.spec_head(),
    {
        self.snake[0]
    }

    pub fn is_fatal(&self, dir: Dir) -> (r: bool)
        requires
            self.wf(),
        ensures
            r == self.fatal(dir),
    {
        let board = Board::new(self.width, self.height);
        let p = self.head().step(dir);
        proof {
            if board.spec_contains(p) {
                lemma_mask_at(board, self.obstacles@, p);
            }
        }
        fatal_at(board, &self.walls, &self.snake, &self.foods, p)
    }

    /// Rocks plus the body without its tail.
    fn food_blocks(&self) -> (blocked: Vec<bool>)
        requires
            self.wf(),
        ensures
            blocked@ == self.block_mask(),
    {
        let board = Board::new(self.width, self.height);
        body_blocks(board, &self.walls, Ghost(self.obstacles@), &self.snake, self.snake.len() - 1)
    }

    /// Path distance from every cell to its nearest food, walking around rocks and the body.
    fn food_distances(&self) -> (dist: Vec<Option<u32>>)
        requires
            self.wf(),
        ensures
            dist@.len() == self.spec_board().spec_cells(),
            forall|p: Point| #[trigger] self.spec_board().spec_contains(p) ==> distance_entry(self.spec_board(), self.block_mask(), self.foods@, p, dist@[self.spec_board().spec_idx(p)]),
    {
        let board = Board::new(self.width, self.height);
        let blocked = self.food_blocks();
        crate::search::distances_from(board, &self.foods, &blocked)
    }
}

/// The distance-table entry of `p`, or `None` off the board.
fn dist_at(board: Board, dist: &Vec<Option<u32>>, p: Point) -> (r: Option<u32>)
    requires
        board.wf(),
        dist@.len() == board.spec_cells(),
    ensures
        r == (if board.spec_contains(p) { dist@[board.spec_idx(p)] } else { None }),
{
    if board.contains(p) {
        dist[board.idx(p)]
    } else {
        None
    }
}

pub open spec fn least_of(acc: Option<int>, x: Option<int>) -> Option<int> {
    match (acc, x) {
        (None, x) => x,
        (Some(m), None) => Some(m),
        (Some(m), Some(v)) => Some(if v < m { v } else { m }),
    }
}

pub open spec fn widen(x: Option<u32>) -> Option<int> {
    match x {
        Some(v) => Some(v as int),
        None => None,
    }
}

fn least_step(acc: Option<u32>, x: Option<u32>) -> (r: Option<u32>)
    ensures
        widen(r) == least_of(widen(acc), widen(x)),
{
    match (acc, x) {
        (None, x) => x,
        (Some(m), None) => Some(m),
        (Some(m), Some(v)) => Some(if v < m { v } else { m }),
    }
}

fn matches_least(x: Option<u32>, m: u32) -> (r: bool)
    ensures
        r == (widen(x) == Some(m as int)),
{
    match x {
        Some(v) => v == m,
        None => false,
    }
}

proof fn lemma_least_present4(a: Option<int>, b: Option<int>, c: Option<int>, d: Option<int>)
    ensures
        least_present(seq![a, b, c, d]) == least_of(least_of(least_of(least_of(None, a), b), c), d),
{
    let s = seq![a, b, c, d];
    assert(s.drop_last() =~= seq![a, b, c]);
    assert(seq![a, b, c].drop_last() =~= seq![a, b]);
    assert(seq![a, b].drop_last() =~= seq![a]);
    assert(seq![a].drop_last() =~= Seq::<Option<int>>::empty());
    reveal_with_fuel(least_present, 5);
}

impl GameSnapshot {
    /// The distance entry of a neighbour of the head, as the spec names it.
    proof fn lemma_entry(&self, dist: Seq<Option<u32>>, e: Option<u32>, q: Point)
        requires
            self.wf(),
            dist.len() == self.spec_board().spec_cells(),
            forall|p: Point| #[trigger] self.spec_board().spec_contains(p) ==> distance_entry(self.spec_board(), self.block_mask(), self.foods@, p, dist[self.spec_board().spec_idx(p)]),
            e == (if self.spec_board().spec_contains(q) { dist[self.spec_board().spec_idx(q)] } else { None }),
        ensures
            widen(e) == food_distance(self.spec_board(), self.block_mask(), self.foods@, q),
    {
        let b = self.spec_board();
        let m = self.block_mask();
        if b.spec_contains(q) {
            assert(distance_entry(b, m, self.foods@, q, dist[b.spec_idx(q)]));
            match e {
                Some(d) => {
                    assert(src_walk(b, m, self.foods@, q, d as nat));
                    let c = choose|c: nat| crate::search::shortest(b, m, self.foods@, q, c);
                    lemma_shortest_unique(b, m, self.foods@, q, c, d as nat);
                },
                None => {},
            }
        }
    }

    /// For each direction (in `Dir::ALL` order): does it shorten the path to the nearest food?
    /// Falls back to Manhattan distance when no food can be reached.
    pub fn toward_food(&self) -> (out: [bool; 4])
        requires
            self.wf(),
        ensures
            out@ == toward_spec(self.spec_board(), self.block_mask(), self.foods@, self.spec_head()),
    {
        let board = Board::new(self.width, self.height);
        let h = self.head();
        let dist = self.food_distances();
        let a0 = dist_at(board, &dist, h.step(Dir::Up));
        let a1 = dist_at(board, &dist, h.step(Dir::Down));
        let a2 = dist_at(board, &dist, h.step(Dir::Left));
        let a3 = dist_at(board, &dist, h.step(Dir::Right));
        let ghost vals = Seq::new(4, |k: int| food_distance(board, self.block_mask(), self.foods@, h.moved(dir_at(k))));
        proof {
            self.lemma_entry(dist@, a0, h.moved(Dir::Up));
            self.lemma_entry(dist@, a1, h.moved(Dir::Down));
            self.lemma_entry(dist@, a2, h.moved(Dir::Left));
            self.lemma_entry(dist@, a3, h.moved(Dir::Right));
            assert(vals =~= seq![widen(a0), widen(a1), widen(a2), widen(a3)]) by {
                assert(dir_at(0) == Dir::Up);
                assert(dir_at(1) == Dir::Down);
                assert(dir_at(2) == Dir::Left);
                assert(dir_at(3) == Dir::Right);
            }
            lemma_least_present4(widen(a0), widen(a1), widen(a2), widen(a3));
        }
        let best = least_step(least_step(least_step(least_step(None, a0), a1), a2), a3);
        match best {
            Some(m) => {
                let out = [matches_least(a0, m), matches_least(a1, m), matches_least(a2, m), matches_least(a3, m)];
                proof {
                    assert(out@ =~= toward_spec(board, self.block_mask(), self.foods@, h));
                }
                out
            },
            None => match closest_point(&self.foods, h) {
                Some(f) => {
                    let here = manhattan_exec(f, h);
                    let out = [
                        manhattan_exec(f, h.step(Dir::Up)) < here,
                        manhattan_exec(f, h.step(Dir::Down)) < here,
                        manhattan_exec(f, h.step(Dir::Left)) < here,
                        manhattan_exec(f, h.step(Dir::Right)) < here,
                    ];
                    proof {
                        assert(out@ =~= toward_spec(board, self.block_mask(), self.foods@, h)) by {
                            assert(dir_at(0) == Dir::Up);
                            assert(dir_at(1) == Dir::Down);
                            assert(dir_at(2) == Dir::Left);
                            assert(dir_at(3) == Dir::Right);
                        }
                    }
                    out
                },
                None => {
                    let out = [false, false, false, false];
                    proof {
                        assert(out@ =~= toward_spec(board, self.block_mask(), self.foods@, h));
                    }
                    out
                },
            },
        }
    }

    /// What `nearest_food` may answer: when some food other than the head's cell can be reached
    /// through cells from which food is reachable, a reachable food at the least path distance;
    /// otherwise the first food at the least Manhattan distance, or `None` without food.
    pub open spec fn nearest_food_spec(&self, r: Option<Point>) -> bool {
        let b = self.spec_board();
        let m = nearest_mask(b, self.obstacles@, self.snake@, self.foods@);
        let h = self.spec_head();
        &&& (exists|g: Point| self.foods@.contains(g) && g != h && #[trigger] reaches(b, m, h, g)) ==> {
            &&& r is Some
            &&& nearest_target(b, m, h, self.foods@, r)
        }
        &&& !(exists|g: Point| self.foods@.contains(g) && g != h && #[trigger] reaches(b, m, h, g)) ==> r == closest_food(self.foods@, h)
    }

    /// The food `nearest_food` answers: the first food the breadth-first search from the head
    /// queues, over the cells from which some food can be reached; otherwise the first food at the
    /// least Manhattan distance.
    pub open spec fn nearest_food_of(&self) -> Option<Point> {
        match first_hit(
            search_order(self.spec_board(), nearest_mask(self.spec_board(), self.obstacles@, self.snake@, self.foods@), self.spec_head()),
            self.spec_head(),
            self.foods@,
            0,
        ) {
            Some(f) => Some(f),
            None => closest_food(self.foods@, self.spec_head()),
        }
    }

    /// `nearest_food` answers `None` exactly when there is no food.
    pub proof fn lemma_nearest_food_none(&self, r: Option<Point>)
        requires
            self.nearest_food_spec(r),
        ensures
            r is None <==> self.foods@.len() == 0,
    {
        let b = self.spec_board();
        let m = nearest_mask(b, self.obstacles@, self.snake@, self.foods@);
        let h = self.spec_head();
        if exists|g: Point| self.foods@.contains(g) && g != h && #[trigger] reaches(b, m, h, g) {
            let g = choose|g: Point| self.foods@.contains(g) && g != h && #[trigger] reaches(b, m, h, g);
            assert(self.foods@.len() > 0);
        }
    }

    /// The food the snake would reach first, by path length (Manhattan when none is reachable):
    /// the first food the breadth-first search from the head queues, over the cells from which
    /// some food can be reached; otherwise the first food at the least Manhattan distance.
    pub fn nearest_food(&self) -> (r: Option<Point>)
        requires
            self.wf(),
        ensures
            self.nearest_food_spec(r),
            r == self.nearest_food_of(),
    {
        let board = Board::new(self.width, self.height);
        let h = self.head();
        let dist = self.food_distances();
        let blocked = self.food_blocks();
        let ghost nm = nearest_mask(board, self.obstacles@, self.snake@, self.foods@);
        let mut allowed: Vec<bool> = Vec::new();
        let cells = board.cells();
        let mut i: usize = 0;
        while i < cells
            invariant
                board == self.spec_board(),
                board.wf(),
                self.wf(),
                cells == board.spec_cells(),
                i <= cells,
                dist@.len() == cells,
                blocked@ == self.block_mask(),
                nm == nearest_mask(board, self.obstacles@, self.snake@, self.foods@),
                forall|p: Point| #[trigger] board.spec_contains(p) ==> distance_entry(board, self.block_mask(), self.foods@, p, dist@[board.spec_idx(p)]),
                allowed@.len() == i,
                forall|j: int| 0 <= j < i ==> allowed@[j] == nm[j],
            decreases cells - i,
        {
            let blocked_here = blocked[i] || dist[i].is_none();
            proof {
                lemma_point_of(board, i as int);
                let p = board.point_of(i as int);
                assert(distance_entry(board, self.block_mask(), self.foods@, p, dist@[i as int]));
                match dist@[i as int] {
                    Some(d) => {
                        assert(src_walk(board, self.block_mask(), self.foods@, p, d as nat));
                    },
                    None => {},
                }
            }
            allowed.push(blocked_here);
            i += 1;
        }
        proof {
            assert(allowed@ =~= nm);
        }
        match first_reached(board, h, &allowed, &self.foods) {
            Some(p) => {
                proof {
                    let d = choose|d: nat| {
                        &&& #[trigger] crate::grid::walk_of(board, nm, h, p, d)
                        &&& forall|g: Point, k: nat| self.foods@.contains(g) && g != h && #[trigger] crate::grid::walk_of(board, nm, h, g, k) ==> d <= k
                    };
                    assert(reaches(board, nm, h, p));
                }
                Some(p)
            },
            None => closest_point(&self.foods, h),
        }
    }
}

/// Rocks plus the first `keep` body cells.
fn body_blocks<B: PointSeq>(board: Board, walls: &Vec<bool>, obstacles: Ghost<Seq<Point>>, body: &B, keep: usize) -> (blocked: Vec<bool>)
    requires
        board.wf(),
        walls@ == obstacle_mask(board, obstacles@),
        keep <= body.points().len(),
    ensures
        blocked@ == body_mask(board, obstacles@, body.points(), keep as int),
{
    let mut blocked = copy_flags(walls);
    let mut i: usize = 0;
    while i < keep
        invariant
            board.wf(),
            keep <= body.points().len(),
            i <= keep,
            blocked@.len() == board.spec_cells(),
            forall|j: int| 0 <= j < board.spec_cells() ==> (blocked@[j] <==> (obstacles@.contains(board.point_of(j))
                || body.points().subrange(0, i as int).contains(board.point_of(j)))),
        decreases keep - i,
    {
        let p = body.at(i);
        if board.contains(p) {
            let pi = board.idx(p);
            let ghost prev = blocked@;
            blocked.set(pi, true);
            proof {
                lemma_idx_inverse(board, p);
                assert forall|j: int| 0 <= j < board.spec_cells() implies (blocked@[j] <==> (obstacles@.contains(board.point_of(j))
                    || body.points().subrange(0, i + 1).contains(board.point_of(j)))) by {
                    assert(prev[j] <==> (obstacles@.contains(board.point_of(j))
                        || body.points().subrange(0, i as int).contains(board.point_of(j))));
                    lemma_point_of(board, j);
                    lemma_sub_push(body.points(), i as int, board.point_of(j));
                }
            }
        } else {
            proof {
                assert forall|j: int| 0 <= j < board.spec_cells() implies (blocked@[j] <==> (obstacles@.contains(board.point_of(j))
                    || body.points().subrange(0, i + 1).contains(board.point_of(j)))) by {
                    lemma_point_of(board, j);
                    lemma_sub_push(body.points(), i as int, board.point_of(j));
                }
            }
        }
        i += 1;
    }
    proof {
        assert(blocked@ =~= body_mask(board, obstacles@, body.points(), keep as int));
    }
    blocked
}

/// The counts behind the dead-end risk and food reachability of a move: the area the head can
/// still roam after the move, the body length after it, and whether some food can be reached.
#[derive(Clone, Copy, Debug, PartialEq, Eq, Structural)]
pub struct MoveOutlook {
    pub area: usize,
    pub body_len: usize,
    pub food_reachable: bool,
}

/// After executing `dir`: the flood-fill area from the new head (walking around rocks and the body
/// that stays: all of it when the move eats, all but the tail otherwise), the body length after the
/// move, and whether a path to any food exists from the new head. The dead-end risk is
/// `1 - area / body_len`, clamped to `[0, 1]`.
pub fn move_outlook(game: &SnakeGame, dir: Dir) -> (o: MoveOutlook)
    requires
        game.wf(),
        game.spec_head().moved(dir).steppable(),
        game.snake@.len() < usize::MAX,
    ensures
        ({
            let b = game.spec_board();
            let p = game.spec_head().moved(dir);
            let keep = body_in_way(game.snake@, game.foods@, p);
            let mask = body_mask(b, game.obstacles@, game.snake@, keep);
            &&& o.area == flood_count(b, mask, p)
            &&& o.body_len == keep + 1
            &&& o.food_reachable == (game.foods@.len() > 0 && goal_in_reach(b, mask, p, game.foods@))
        }),
{
    let board = game.board();
    let new_head = game.next_head(dir);
    let ate = crate::search::contains_point(&game.foods, new_head);
    let keep = if ate { game.snake.len() } else { game.snake.len() - 1 };
    let body_len = keep + 1;
    let blocked = body_blocks(board, &game.walls, Ghost(game.obstacles@), &game.snake, keep);
    let cells = board.cells();
    let mut seen: Vec<bool> = Vec::new();
    let mut i: usize = 0;
    while i < cells
        invariant
            i <= cells,
            seen@.len() == i,
        decreases cells - i,
    {
        seen.push(false);
        i += 1;
    }
    let mut queue: Vec<Point> = Vec::new();
    let area = crate::search::flood_fill_area(board, new_head, &blocked, &mut seen, &mut queue);
    let food_reachable = game.foods.len() > 0
        && crate::search::bfs_any_goal(board, new_head, &game.foods, &blocked, &mut seen, &mut queue);
    MoveOutlook { area, body_len, food_reachable }
}

/// Eating one of several foods keeps the count: a board holding its full set of foods, with one
/// eaten and the rest topped up, holds the same number again unless no free cell was left.
pub proof fn lemma_eating_keeps_count(b: Board, obstacles: Seq<Point>, body: Seq<Point>, base: Seq<Point>, target: usize, result: Seq<Point>)
    requires
        refill_of(b, obstacles, body, base, target, result),
        base.len() + 1 == target,
        !board_full(b, obstacles, body, result),
    ensures
        result.len() == target,
{
}

/// A snapshot and a game hold the same position: board, snake, foods and rocks.
pub open spec fn same_position(s: GameSnapshot, g: SnakeGame) -> bool {
    &&& s.width == g.width
    &&& s.height == g.height
    &&& s.snake@ == g.snake@
    &&& s.foods@ == g.foods@
    &&& s.obstacles@ == g.obstacles@
}

/// A game rebuilt from a snapshot of a game is the same position: the same head, and every move
/// is fatal in one exactly when it is fatal in the other and in the snapshot.
pub proof fn lemma_snapshot_round_trip(g: SnakeGame, s: GameSnapshot, g2: SnakeGame)
    requires
        g.wf(),
        s.wf(),
        g2.wf(),
        same_position(s, g),
        same_position(s, g2),
    ensures
        g2.spec_head() == g.spec_head(),
        forall|d: Dir| #[trigger] g2.fatal(d) == g.fatal(d) && s.fatal(d) == g.fatal(d),
{
}

} // verus!
