//! Breadth-first searches over the open cells of a board.

use vstd::prelude::*;
use crate::grid::{
    dir_at, is_walk, lemma_in_board_steppable, lemma_walk_last_step, lemma_closed_holds_reachable, lemma_idx_bounds, lemma_idx_injective, lemma_idx_inverse, lemma_point_of, lemma_reaches_closed,
    lemma_walk_extend, lemma_walk_start, neighbors, open_at, reach_set, reaches, walk_of, Board, Dir, Point,
};

verus! {

broadcast use vstd::std_specs::vecdeque::group_vec_dequeue_axioms;

/// Does `v` hold `p`?
pub fn contains_point(v: &Vec<Point>, p: Point) -> (r: bool)
    ensures
        r == v@.contains(p),
{
    let mut i: usize = 0;
    while i < v.len()
        invariant
            i <= v.len(),
            forall|j: int| 0 <= j < i ==> v@[j] != p,
        decreases v.len() - i,
    {
        if v[i] == p {
            assert(v@[i as int] == p);
            return true;
        }
        i += 1;
    }
    false
}

/// What the flood fill from `s` counts: nothing when `s` is a blocked cell; otherwise every
/// in-board cell reachable from `s`, plus `s` itself when it lies off the board.
pub open spec fn flood_count(b: Board, blocked: Seq<bool>, s: Point) -> int {
    if b.spec_contains(s) && blocked[b.spec_idx(s)] {
        0
    } else {
        reach_set(b, blocked, s).len() + (if b.spec_contains(s) { 0int } else { 1int })
    }
}

/// The points a search from `s` expands: `s` itself and the open cells reachable from it.
pub open spec fn explored(b: Board, blocked: Seq<bool>, s: Point, p: Point) -> bool {
    p == s || (open_at(b, blocked, p) && reaches(b, blocked, s, p))
}

/// Some goal is `s` itself or one step away from a point the search from `s` expands.
pub open spec fn goal_in_reach(b: Board, blocked: Seq<bool>, s: Point, goals: Seq<Point>) -> bool {
    goals.contains(s) || exists|p: Point, k: int|
        0 <= k < 4 && explored(b, blocked, s, p) && #[trigger] goals.contains(p.moved(dir_at(k)))
}

/// The queue of a search: it starts at `s`, everything after the start is open and reachable,
/// nothing occurs twice, and `seen` marks exactly its in-board points.
pub open spec fn queue_ok(
    b: Board,
    blocked: Seq<bool>,
    s: Point,
    queue: Seq<Point>,
    seen: Seq<bool>,
    marked: Set<int>,
) -> bool {
    &&& queue.len() >= 1
    &&& queue[0] == s
    &&& forall|j: int| 0 < j < queue.len() ==> open_at(b, blocked, #[trigger] queue[j])
    &&& forall|j: int| 0 <= j < queue.len() ==> reaches(b, blocked, s, #[trigger] queue[j])
    &&& queue.no_duplicates()
    &&& seen.len() == b.spec_cells()
    &&& forall|p: Point| b.spec_contains(p) ==> (seen[b.spec_idx(p)] <==> #[trigger] queue.contains(p))
    &&& forall|i: int| 0 <= i < b.spec_cells() ==> (seen[i] <==> #[trigger] marked.contains(i))
    &&& forall|i: int| #[trigger] marked.contains(i) ==> 0 <= i < b.spec_cells()
    &&& marked.finite()
    &&& queue.len() == marked.len() + (if b.spec_contains(s) { 0int } else { 1int })
}

/// Every open neighbour of the first `head` queue entries is queued.
pub open spec fn expanded(b: Board, blocked: Seq<bool>, queue: Seq<Point>, head: int) -> bool {
    forall|j: int, k: int|
        0 <= j < head && 0 <= k < 4 && open_at(b, blocked, #[trigger] queue[j].moved(dir_at(k)))
            ==> queue.contains(queue[j].moved(dir_at(k)))
}

proof fn lemma_marked_bound(b: Board, marked: Set<int>)
    requires
        b.wf(),
        marked.finite(),
        forall|i: int| #[trigger] marked.contains(i) ==> 0 <= i < b.spec_cells(),
    ensures
        marked.len() <= b.spec_cells(),
{
    vstd::set_lib::lemma_int_range(0, b.spec_cells());
    assert(marked.subset_of(vstd::set_lib::set_int_range(0, b.spec_cells())));
    vstd::set_lib::lemma_len_subset(marked, vstd::set_lib::set_int_range(0, b.spec_cells()));
}

/// Once every queued point is expanded, the queue holds exactly the start and the reachable cells.
proof fn lemma_queue_complete(b: Board, blocked: Seq<bool>, s: Point, queue: Seq<Point>, seen: Seq<bool>, marked: Set<int>)
    requires
        b.wf(),
        queue_ok(b, blocked, s, queue, seen, marked),
        expanded(b, blocked, queue, queue.len() as int),
    ensures
        forall|p: Point| #[trigger] queue.contains(p) <==> explored(b, blocked, s, p),
{
    let inside = |p: Point| queue.contains(p);
    assert forall|q: Point, r: Point|
        inside(q) && #[trigger] neighbors(q, r) && open_at(b, blocked, r) implies #[trigger] inside(r) by {
        let j = choose|j: int| 0 <= j < queue.len() && queue[j] == q;
        if r == q.moved(Dir::Up) {
            assert(dir_at(0) == Dir::Up);
            assert(open_at(b, blocked, queue[j].moved(dir_at(0))));
        } else if r == q.moved(Dir::Down) {
            assert(dir_at(1) == Dir::Down);
            assert(open_at(b, blocked, queue[j].moved(dir_at(1))));
        } else if r == q.moved(Dir::Left) {
            assert(dir_at(2) == Dir::Left);
            assert(open_at(b, blocked, queue[j].moved(dir_at(2))));
        } else {
            assert(dir_at(3) == Dir::Right);
            assert(open_at(b, blocked, queue[j].moved(dir_at(3))));
        }
    }
    assert(inside(s)) by {
        assert(queue[0] == s);
    }
    assert forall|p: Point| #[trigger] queue.contains(p) <==> explored(b, blocked, s, p) by {
        if queue.contains(p) {
            let j = choose|j: int| 0 <= j < queue.len() && queue[j] == p;
            assert(reaches(b, blocked, s, queue[j]));
            if j > 0 {
                assert(open_at(b, blocked, queue[j]));
            }
        }
        if explored(b, blocked, s, p) {
            if p == s {
                assert(queue[0] == s);
            } else {
                lemma_reaches_closed(b, blocked, s, inside, p);
            }
        }
    }
}

/// Reachable cell count from `start`, walking only through unblocked in-bounds cells. `start`
/// itself is counted even if it lies off the board (a fatal move).
pub fn flood_fill_area(
    board: Board,
    start: Point,
    blocked: &Vec<bool>,
    seen: &mut Vec<bool>,
    queue: &mut Vec<Point>,
) -> (count: usize)
    requires
        board.wf(),
        blocked@.len() == board.spec_cells(),
        old(seen)@.len() == board.spec_cells(),
        start.steppable(),
    ensures
        final(seen)@.len() == board.spec_cells(),
        reach_set(board, blocked@, start).finite(),
        count == flood_count(board, blocked@, start),
        board.spec_contains(start) && blocked@[board.spec_idx(start)] ==> final(seen)@ == old(seen)@,
        !(board.spec_contains(start) && blocked@[board.spec_idx(start)]) ==> forall|p: Point|
            #[trigger] board.spec_contains(p) ==> (final(seen)@[board.spec_idx(p)] <==> explored(board, blocked@, start, p)),
{
    if board.contains(start) && blocked[board.idx(start)] {
        proof {
            let r = reach_set(board, blocked@, start);
            // A blocked start is never expanded; the set is still finite (it holds at most the
            // board), which the caller may rely on.
            lemma_reach_set_finite(board, blocked@, start);
        }
        return 0;
    }
    let cells = board.cells();
    let mut i: usize = 0;
    while i < seen.len()
        invariant
            seen@.len() == cells,
            i <= cells,
            forall|j: int| 0 <= j < i ==> !seen@[j],
        decreases cells - i,
    {
        seen.set(i, false);
        i += 1;
    }
    queue.clear();
    let ghost cleared = seen@;
    let ghost mut marked: Set<int> = Set::empty();
    if board.contains(start) {
        let si = board.idx(start);
        seen.set(si, true);
        proof {
            marked = marked.insert(si as int);
        }
    }
    queue.push(start);
    proof {
        lemma_walk_start(board, blocked@, start);
        assert forall|p: Point| board.spec_contains(p) implies (seen@[board.spec_idx(p)]
            <==> #[trigger] queue@.contains(p)) by {
            lemma_idx_bounds(board, p);
            assert(queue@ =~= seq![start]);
            assert(queue@[0] == start);
            assert(queue@.contains(start));
            assert(!cleared[board.spec_idx(p)]);
            if board.spec_contains(start) {
                lemma_idx_bounds(board, start);
                assert(seen@ == cleared.update(board.spec_idx(start), true));
                if board.spec_idx(p) == board.spec_idx(start) {
                    lemma_idx_injective(board, p, start);
                }
            } else {
                assert(seen@ == cleared);
            }
            if queue@.contains(p) {
                assert(queue@[0] == p);
            }
        }
    }
    let mut count: usize = 1;
    let mut head: usize = 0;
    while head < queue.len()
        invariant
            board.wf(),
            blocked@.len() == board.spec_cells(),
            start.steppable(),
            !board.spec_contains(start) || !blocked@[board.spec_idx(start)],
            queue_ok(board, blocked@, start, queue@, seen@, marked),
            expanded(board, blocked@, queue@, head as int),
            head <= queue@.len(),
            count == queue@.len(),
        decreases board.spec_cells() + 1 - head,
    {
        proof {
            lemma_marked_bound(board, marked);
        }
        let p = queue[head];
        proof {
            if head > 0 {
                assert(open_at(board, blocked@, queue@[head as int]));
            }
        }
        let mut k: usize = 0;
        while k < 4
            invariant
                board.wf(),
                blocked@.len() == board.spec_cells(),
                start.steppable(),
                !board.spec_contains(start) || !blocked@[board.spec_idx(start)],
                queue_ok(board, blocked@, start, queue@, seen@, marked),
                expanded(board, blocked@, queue@, head as int),
                head < queue@.len(),
                p == queue@[head as int],
                p.steppable(),
                count == queue@.len(),
                k <= 4,
                forall|kk: int|
                    0 <= kk < k && open_at(board, blocked@, #[trigger] p.moved(dir_at(kk)))
                        ==> queue@.contains(p.moved(dir_at(kk))),
            decreases 4 - k,
        {
            proof {
                lemma_marked_bound(board, marked);
            }
            let n = p.step(Dir::from_index(k));
            if board.contains(n) {
                let ni = board.idx(n);
                if !blocked[ni] && !seen[ni] {
                    proof {
                        assert(!queue@.contains(n));
                        assert(!marked.contains(ni as int));
                        assert(reaches(board, blocked@, start, queue@[head as int]));
                        let steps = choose|steps: nat| #[trigger] walk_of(board, blocked@, start, p, steps);
                        assert(neighbors(p, n));
                        lemma_walk_extend(board, blocked@, start, p, steps, n);
                    }
                    let ghost old_seen = seen@;
                    let ghost old_marked = marked;
                    seen.set(ni, true);
                    let ghost old_queue = queue@;
                    queue.push(n);
                    count += 1;
                    proof {
                        marked = marked.insert(ni as int);
                        assert forall|pp: Point| board.spec_contains(pp) implies (seen@[board.spec_idx(pp)]
                            <==> #[trigger] queue@.contains(pp)) by {
                            lemma_idx_bounds(board, pp);
                            assert(queue_ok(board, blocked@, start, old_queue, old_seen, old_marked));
                            assert(old_seen[board.spec_idx(pp)] <==> old_queue.contains(pp));
                            if board.spec_idx(pp) == ni {
                                lemma_idx_injective(board, pp, n);
                                assert(queue@[queue@.len() - 1] == n);
                            } else {
                                assert(seen@[board.spec_idx(pp)] == old_seen[board.spec_idx(pp)]);
                            }
                            if queue@.contains(pp) && pp != n {
                                let j = choose|j: int| 0 <= j < queue@.len() && queue@[j] == pp;
                                assert(old_queue[j] == pp);
                                assert(old_queue.contains(pp));
                            }
                            if old_queue.contains(pp) {
                                let j = choose|j: int| 0 <= j < old_queue.len() && old_queue[j] == pp;
                                assert(queue@[j] == pp);
                            }
                        }
                        assert forall|j: int| 0 < j < queue@.len() implies open_at(board, blocked@, #[trigger] queue@[j]) by {
                            if j < old_queue.len() {
                                assert(old_queue[j] == queue@[j]);
                            }
                        }
                        assert forall|j: int| 0 <= j < queue@.len() implies reaches(board, blocked@, start, #[trigger] queue@[j]) by {
                            if j < old_queue.len() {
                                assert(old_queue[j] == queue@[j]);
                            }
                        }
                        assert forall|j: int, kk: int|
                            0 <= j < head && 0 <= kk < 4 && open_at(board, blocked@, #[trigger] queue@[j].moved(dir_at(kk)))
                            implies queue@.contains(queue@[j].moved(dir_at(kk))) by {
                            assert(old_queue[j] == queue@[j]);
                            assert(old_queue.contains(old_queue[j].moved(dir_at(kk))));
                            let w = choose|w: int| 0 <= w < old_queue.len() && old_queue[w] == old_queue[j].moved(dir_at(kk));
                            assert(queue@[w] == old_queue[w]);
                        }
                        assert forall|kk: int| 0 <= kk <= k && open_at(board, blocked@, #[trigger] p.moved(dir_at(kk)))
                            implies queue@.contains(p.moved(dir_at(kk))) by {
                            if kk < k {
                                assert(old_queue.contains(p.moved(dir_at(kk))));
                                let w = choose|w: int| 0 <= w < old_queue.len() && old_queue[w] == p.moved(dir_at(kk));
                                assert(queue@[w] == old_queue[w]);
                            } else {
                                assert(queue@[queue@.len() - 1] == n);
                            }
                        }
                        assert(queue@.no_duplicates());
                    }
                }
            }
            k += 1;
        }
        head += 1;
        proof {
            assert forall|j: int, kk: int|
                0 <= j < head && 0 <= kk < 4 && open_at(board, blocked@, #[trigger] queue@[j].moved(dir_at(kk)))
                implies queue@.contains(queue@[j].moved(dir_at(kk))) by {
            }
        }
    }
    proof {
        lemma_queue_complete(board, blocked@, start, queue@, seen@, marked);
        assert forall|p: Point| #[trigger] board.spec_contains(p) implies (seen@[board.spec_idx(p)]
            <==> explored(board, blocked@, start, p)) by {
            assert(queue@.contains(p) <==> explored(board, blocked@, start, p));
        }
        let r = reach_set(board, blocked@, start);
        let qs = queue@.to_set();
        queue@.unique_seq_to_set();
        if board.spec_contains(start) {
            assert(r =~= qs) by {
                assert forall|p: Point| r.contains(p) <==> qs.contains(p) by {
                    if qs.contains(p) {
                        assert(explored(board, blocked@, start, p));
                    }
                    if r.contains(p) {
                        assert(explored(board, blocked@, start, p));
                    }
                }
            }
        } else {
            assert(r =~= qs.remove(start)) by {
                assert forall|p: Point| r.contains(p) <==> qs.remove(start).contains(p) by {
                    if qs.contains(p) {
                        assert(explored(board, blocked@, start, p));
                    }
                    if r.contains(p) {
                        assert(explored(board, blocked@, start, p));
                    }
                }
            }
            assert(qs.contains(start)) by {
                assert(queue@[0] == start);
            }
        }
    }
    count
}

/// The in-board reachable set is finite: it lies inside the board.
pub proof fn lemma_reach_set_finite(b: Board, blocked: Seq<bool>, s: Point)
    requires
        b.wf(),
    ensures
        reach_set(b, blocked, s).finite(),
{
    lemma_board_finite(b);
    vstd::set_lib::lemma_set_subset_finite(board_set(b), reach_set(b, blocked, s));
}

/// All in-board points.
pub open spec fn board_set(b: Board) -> Set<Point> {
    Set::new(|p: Point| b.spec_contains(p))
}

pub proof fn lemma_board_finite(b: Board)
    requires
        b.wf(),
    ensures
        board_set(b).finite(),
        board_set(b).len() == b.spec_cells(),
{
    let ints = vstd::set_lib::set_int_range(0, b.spec_cells());
    vstd::set_lib::lemma_int_range(0, b.spec_cells());
    let f = |i: int| b.point_of(i);
    assert(ints.map(f) =~= board_set(b)) by {
        assert forall|p: Point| board_set(b).contains(p) implies ints.map(f).contains(p) by {
            lemma_idx_inverse(b, p);
            lemma_idx_bounds(b, p);
            assert(ints.contains(b.spec_idx(p)));
        }
        assert forall|p: Point| ints.map(f).contains(p) implies board_set(b).contains(p) by {
            let i = choose|i: int| ints.contains(i) && f(i) == p;
            lemma_point_of(b, i);
        }
    }
    assert(vstd::relations::injective_on(f, ints)) by {
        assert forall|i: int, j: int| ints.contains(i) && ints.contains(j) && #[trigger] f(i) == #[trigger] f(j) implies i == j by {
            lemma_point_of(b, i);
            lemma_point_of(b, j);
        }
    }
    vstd::set_lib::lemma_map_size(ints, board_set(b), f);
}

/// Is any cell in `goals` reachable from `start` through unblocked cells?
pub fn bfs_any_goal(
    board: Board,
    start: Point,
    goals: &Vec<Point>,
    blocked: &Vec<bool>,
    seen: &mut Vec<bool>,
    queue: &mut Vec<Point>,
) -> (found: bool)
    requires
        board.wf(),
        blocked@.len() == board.spec_cells(),
        old(seen)@.len() == board.spec_cells(),
        start.steppable(),
    ensures
        final(seen)@.len() == board.spec_cells(),
        found == goal_in_reach(board, blocked@, start, goals@),
{
    if contains_point(goals, start) {
        return true;
    }
    let cells = board.cells();
    let mut i: usize = 0;
    while i < seen.len()
        invariant
            seen@.len() == cells,
            i <= cells,
            forall|j: int| 0 <= j < i ==> !seen@[j],
        decreases cells - i,
    {
        seen.set(i, false);
        i += 1;
    }
    queue.clear();
    let ghost cleared = seen@;
    let ghost mut marked: Set<int> = Set::empty();
    if board.contains(start) {
        let si = board.idx(start);
        seen.set(si, true);
        proof {
            marked = marked.insert(si as int);
        }
    }
    queue.push(start);
    proof {
        lemma_walk_start(board, blocked@, start);
        assert forall|p: Point| board.spec_contains(p) implies (seen@[board.spec_idx(p)]
            <==> #[trigger] queue@.contains(p)) by {
            lemma_idx_bounds(board, p);
            assert(queue@ =~= seq![start]);
            assert(queue@[0] == start);
            assert(queue@.contains(start));
            assert(!cleared[board.spec_idx(p)]);
            if board.spec_contains(start) {
                lemma_idx_bounds(board, start);
                assert(seen@ == cleared.update(board.spec_idx(start), true));
                if board.spec_idx(p) == board.spec_idx(start) {
                    lemma_idx_injective(board, p, start);
                }
            } else {
                assert(seen@ == cleared);
            }
            if queue@.contains(p) {
                assert(queue@[0] == p);
            }
        }
    }
    let mut head: usize = 0;
    while head < queue.len()
        invariant
            board.wf(),
            blocked@.len() == board.spec_cells(),
            start.steppable(),
            !goals@.contains(start),
            queue_ok(board, blocked@, start, queue@, seen@, marked),
            expanded(board, blocked@, queue@, head as int),
            head <= queue@.len(),
            forall|j: int, k: int|
                0 <= j < head && 0 <= k < 4 ==> !goals@.contains(#[trigger] queue@[j].moved(dir_at(k))),
        decreases board.spec_cells() + 1 - head,
    {
        proof {
            lemma_marked_bound(board, marked);
        }
        let p = queue[head];
        proof {
            if head > 0 {
                assert(open_at(board, blocked@, queue@[head as int]));
            }
            assert(explored(board, blocked@, start, p)) by {
                if head > 0 {
                    assert(open_at(board, blocked@, queue@[head as int]));
                    assert(reaches(board, blocked@, start, queue@[head as int]));
                } else {
                    assert(queue@[0] == start);
                }
            }
        }
        let mut k: usize = 0;
        while k < 4
            invariant
                board.wf(),
                blocked@.len() == board.spec_cells(),
                start.steppable(),
                !goals@.contains(start),
                queue_ok(board, blocked@, start, queue@, seen@, marked),
                expanded(board, blocked@, queue@, head as int),
                head < queue@.len(),
                p == queue@[head as int],
                p.steppable(),
                explored(board, blocked@, start, p),
                k <= 4,
                forall|kk: int|
                    0 <= kk < k && open_at(board, blocked@, #[trigger] p.moved(dir_at(kk)))
                        ==> queue@.contains(p.moved(dir_at(kk))),
                forall|kk: int| 0 <= kk < k ==> !goals@.contains(#[trigger] p.moved(dir_at(kk))),
                forall|j: int, kk: int|
                    0 <= j < head && 0 <= kk < 4 ==> !goals@.contains(#[trigger] queue@[j].moved(dir_at(kk))),
            decreases 4 - k,
        {
            proof {
                lemma_marked_bound(board, marked);
            }
            let n = p.step(Dir::from_index(k));
            if contains_point(goals, n) {
                proof {
                    assert(goals@.contains(p.moved(dir_at(k as int))));
                }
                return true;
            }
            if board.contains(n) {
                let ni = board.idx(n);
                if !blocked[ni] && !seen[ni] {
                    proof {
                        assert(!queue@.contains(n));
                        assert(!marked.contains(ni as int));
                        assert(reaches(board, blocked@, start, queue@[head as int]));
                        let steps = choose|steps: nat| #[trigger] walk_of(board, blocked@, start, p, steps);
                        assert(neighbors(p, n));
                        lemma_walk_extend(board, blocked@, start, p, steps, n);
                    }
                    let ghost old_seen = seen@;
                    let ghost old_marked = marked;
                    seen.set(ni, true);
                    let ghost old_queue = queue@;
                    queue.push(n);
                    proof {
                        marked = marked.insert(ni as int);
                        assert forall|pp: Point| board.spec_contains(pp) implies (seen@[board.spec_idx(pp)]
                            <==> #[trigger] queue@.contains(pp)) by {
                            lemma_idx_bounds(board, pp);
                            assert(queue_ok(board, blocked@, start, old_queue, old_seen, old_marked));
                            assert(old_seen[board.spec_idx(pp)] <==> old_queue.contains(pp));
                            if board.spec_idx(pp) == ni {
                                lemma_idx_injective(board, pp, n);
                                assert(queue@[queue@.len() - 1] == n);
                            } else {
                                assert(seen@[board.spec_idx(pp)] == old_seen[board.spec_idx(pp)]);
                            }
                            if queue@.contains(pp) && pp != n {
                                let j = choose|j: int| 0 <= j < queue@.len() && queue@[j] == pp;
                                assert(old_queue[j] == pp);
                                assert(old_queue.contains(pp));
                            }
                            if old_queue.contains(pp) {
                                let j = choose|j: int| 0 <= j < old_queue.len() && old_queue[j] == pp;
                                assert(queue@[j] == pp);
                            }
                        }
                        assert forall|j: int| 0 < j < queue@.len() implies open_at(board, blocked@, #[trigger] queue@[j]) by {
                            if j < old_queue.len() {
                                assert(old_queue[j] == queue@[j]);
                            }
                        }
                        assert forall|j: int| 0 <= j < queue@.len() implies reaches(board, blocked@, start, #[trigger] queue@[j]) by {
                            if j < old_queue.len() {
                                assert(old_queue[j] == queue@[j]);
                            }
                        }
                        assert forall|j: int, kk: int|
                            0 <= j < head && 0 <= kk < 4 && open_at(board, blocked@, #[trigger] queue@[j].moved(dir_at(kk)))
                            implies queue@.contains(queue@[j].moved(dir_at(kk))) by {
                            assert(old_queue[j] == queue@[j]);
                            assert(old_queue.contains(old_queue[j].moved(dir_at(kk))));
                            let w = choose|w: int| 0 <= w < old_queue.len() && old_queue[w] == old_queue[j].moved(dir_at(kk));
                            assert(queue@[w] == old_queue[w]);
                        }
                        assert forall|j: int, kk: int| 0 <= j < head && 0 <= kk < 4
                            implies !goals@.contains(#[trigger] queue@[j].moved(dir_at(kk))) by {
                            assert(old_queue[j] == queue@[j]);
                        }
                        assert forall|kk: int| 0 <= kk <= k && open_at(board, blocked@, #[trigger] p.moved(dir_at(kk)))
                            implies queue@.contains(p.moved(dir_at(kk))) by {
                            if kk < k {
                                assert(old_queue.contains(p.moved(dir_at(kk))));
                                let w = choose|w: int| 0 <= w < old_queue.len() && old_queue[w] == p.moved(dir_at(kk));
                                assert(queue@[w] == old_queue[w]);
                            } else {
                                assert(queue@[queue@.len() - 1] == n);
                            }
                        }
                        assert(queue@.no_duplicates());
                    }
                }
            }
            k += 1;
        }
        head += 1;
    }
    proof {
        lemma_queue_complete(board, blocked@, start, queue@, seen@, marked);
        if goal_in_reach(board, blocked@, start, goals@) {
            let (p, k) = choose|p: Point, k: int|
                0 <= k < 4 && explored(board, blocked@, start, p) && #[trigger] goals@.contains(p.moved(dir_at(k)));
            assert(queue@.contains(p));
            let j = choose|j: int| 0 <= j < queue@.len() && queue@[j] == p;
            assert(!goals@.contains(queue@[j].moved(dir_at(k))));
        }
    }
    false
}

/// `p` is `n` steps away from an in-board source, moving through open cells.
pub open spec fn src_walk(b: Board, blocked: Seq<bool>, sources: Seq<Point>, p: Point, n: nat) -> bool {
    exists|f: Point| #[trigger] sources.contains(f) && b.spec_contains(f) && walk_of(b, blocked, f, p, n)
}

/// `d` is the length of the shortest walk from any in-board source to `p`.
pub open spec fn shortest(b: Board, blocked: Seq<bool>, sources: Seq<Point>, p: Point, d: nat) -> bool {
    src_walk(b, blocked, sources, p, d) && forall|k: nat| k < d ==> !#[trigger] src_walk(b, blocked, sources, p, k)
}

/// What a distance table holds for `p`: its shortest distance from the sources, or nothing when
/// no source reaches it.
pub open spec fn distance_entry(b: Board, blocked: Seq<bool>, sources: Seq<Point>, p: Point, e: Option<u32>) -> bool {
    match e {
        Some(d) => shortest(b, blocked, sources, p, d as nat),
        None => forall|n: nat| !#[trigger] src_walk(b, blocked, sources, p, n),
    }
}

pub open spec fn dist_val(b: Board, dist: Seq<Option<u32>>, p: Point) -> int {
    match dist[b.spec_idx(p)] {
        Some(v) => v as int,
        None => -1,
    }
}

/// The invariant of the multi-source search at level `lvl` with queue `q`.
pub open spec fn dist_search_ok(
    b: Board,
    blocked: Seq<bool>,
    sources: Seq<Point>,
    dist: Seq<Option<u32>>,
    q: Seq<Point>,
    lvl: nat,
    marked: Set<int>,
) -> bool {
    &&& dist.len() == b.spec_cells()
    &&& forall|i: int| 0 <= i < b.spec_cells() ==> (dist[i] is Some <==> #[trigger] marked.contains(i))
    &&& forall|i: int| #[trigger] marked.contains(i) ==> 0 <= i < b.spec_cells()
    &&& marked.finite()
    &&& q.no_duplicates()
    &&& forall|j: int| 0 <= j < q.len() ==> b.spec_contains(#[trigger] q[j])
    &&& forall|j: int| 0 <= j < q.len() ==> dist[b.spec_idx(#[trigger] q[j])] is Some
    &&& forall|j: int| 0 <= j < q.len() ==> lvl <= #[trigger] dist_val(b, dist, q[j]) <= lvl + 1
    &&& forall|i: int, j: int| 0 <= i < j < q.len() ==> dist_val(b, dist, #[trigger] q[i]) <= dist_val(b, dist, #[trigger] q[j])
    &&& forall|c: Point| b.spec_contains(c) && (#[trigger] dist[b.spec_idx(c)]) is Some ==> {
        &&& dist_val(b, dist, c) <= lvl + 1
        &&& dist_val(b, dist, c) < marked.len()
        &&& src_walk(b, blocked, sources, c, dist_val(b, dist, c) as nat)
    }
    &&& forall|c: Point, n: nat| n <= lvl && #[trigger] src_walk(b, blocked, sources, c, n) ==> {
        &&& b.spec_contains(c)
        &&& dist[b.spec_idx(c)] is Some
        &&& dist_val(b, dist, c) <= n
    }
}

/// A cell whose distance is known and that has left the queue has all its open neighbours known,
/// at most one step further.
pub open spec fn dist_expanded(b: Board, blocked: Seq<bool>, dist: Seq<Option<u32>>, c: Point, upto: int) -> bool {
    forall|k: int| 0 <= k < upto && #[trigger] open_at(b, blocked, c.moved(dir_at(k))) ==> {
        &&& dist[b.spec_idx(c.moved(dir_at(k)))] is Some
        &&& dist_val(b, dist, c.moved(dir_at(k))) <= dist_val(b, dist, c) + 1
    }
}

/// Path distance from every cell to its nearest source, walking around blocked cells; `None` for
/// cells that no source reaches. Sources off the board are ignored; a source cell itself need not
/// be open.
pub(crate) fn distances_from(board: Board, sources: &Vec<Point>, blocked: &Vec<bool>) -> (dist: Vec<Option<u32>>)
    requires
        board.wf(),
        blocked@.len() == board.spec_cells(),
    ensures
        dist@.len() == board.spec_cells(),
        forall|p: Point| #[trigger] board.spec_contains(p) ==> distance_entry(board, blocked@, sources@, p, dist@[board.spec_idx(p)]),
{
    let cells = board.cells();
    let mut dist: Vec<Option<u32>> = Vec::new();
    let mut i: usize = 0;
    while i < cells
        invariant
            dist@.len() == i,
            i <= cells,
            forall|j: int| 0 <= j < i ==> dist@[j] is None,
        decreases cells - i,
    {
        dist.push(None);
        i += 1;
    }
    let mut queue: std::collections::VecDeque<Point> = std::collections::VecDeque::new();
    let ghost mut marked: Set<int> = Set::empty();
    proof {
        assert forall|c: Point| board.spec_contains(c) implies (#[trigger] dist@[board.spec_idx(c)]) is None by {
            lemma_idx_bounds(board, c);
        }
    }
    let mut s: usize = 0;
    while s < sources.len()
        invariant
            board.wf(),
            blocked@.len() == board.spec_cells(),
            s <= sources@.len(),
            dist@.len() == board.spec_cells(),
            forall|i: int| 0 <= i < board.spec_cells() ==> (dist@[i] is Some <==> #[trigger] marked.contains(i)),
            forall|i: int| #[trigger] marked.contains(i) ==> 0 <= i < board.spec_cells(),
            marked.finite(),
            queue@.no_duplicates(),
            forall|j: int| 0 <= j < queue@.len() ==> board.spec_contains(#[trigger] queue@[j]),
            forall|j: int| 0 <= j < queue@.len() ==> dist@[board.spec_idx(#[trigger] queue@[j])] == Some(0u32),
            forall|c: Point| board.spec_contains(c) && (#[trigger] dist@[board.spec_idx(c)]) is Some ==> {
                &&& dist@[board.spec_idx(c)] == Some(0u32)
                &&& queue@.contains(c)
                &&& sources@.contains(c)
                &&& 0 < marked.len()
            },
            forall|j: int| 0 <= j < s && board.spec_contains(#[trigger] sources@[j]) ==> dist@[board.spec_idx(sources@[j])] is Some,
        decreases sources@.len() - s,
    {
        let f = sources[s];
        if board.contains(f) {
            let fi = board.idx(f);
            if dist[fi].is_none() {
                proof {
                    lemma_marked_bound(board, marked);
                    assert(!queue@.contains(f));
                }
                let ghost old_q = queue@;
                let ghost old_dist = dist@;
                dist.set(fi, Some(0u32));
                queue.push_back(f);
                proof {
                    marked = marked.insert(fi as int);
                    assert forall|j: int| 0 <= j < queue@.len() implies dist@[board.spec_idx(#[trigger] queue@[j])] == Some(0u32) by {
                        if j < old_q.len() {
                            assert(old_q[j] == queue@[j]);
                            lemma_idx_bounds(board, queue@[j]);
                        }
                    }
                    assert forall|c: Point| board.spec_contains(c) && (#[trigger] dist@[board.spec_idx(c)]) is Some implies {
                        &&& dist@[board.spec_idx(c)] == Some(0u32)
                        &&& queue@.contains(c)
                        &&& sources@.contains(c)
                        &&& 0 < marked.len()
                    } by {
                        lemma_idx_bounds(board, c);
                        if board.spec_idx(c) == fi {
                            lemma_idx_injective(board, c, f);
                            assert(queue@[queue@.len() - 1] == f);
                            assert(sources@[s as int] == f);
                        } else {
                            assert(old_dist[board.spec_idx(c)] is Some);
                            let w = choose|w: int| 0 <= w < old_q.len() && old_q[w] == c;
                            assert(queue@[w] == c);
                        }
                    }
                    assert forall|j: int| 0 <= j < s + 1 && board.spec_contains(#[trigger] sources@[j]) implies dist@[board.spec_idx(sources@[j])] is Some by {
                        lemma_idx_bounds(board, sources@[j]);
                        if j < s {
                            assert(old_dist[board.spec_idx(sources@[j])] is Some);
                        }
                    }
                    assert(queue@.no_duplicates());
                }
            }
        }
        s += 1;
    }
    let ghost mut lvl: nat = 0;
    proof {
        assert forall|c: Point, n: nat| n <= lvl && #[trigger] src_walk(board, blocked@, sources@, c, n) implies {
            &&& board.spec_contains(c)
            &&& dist@[board.spec_idx(c)] is Some
            &&& dist_val(board, dist@, c) <= n
        } by {
            let f = choose|f: Point| #[trigger] sources@.contains(f) && board.spec_contains(f) && walk_of(board, blocked@, f, c, n);
            let path = choose|path: Seq<Point>|
                #[trigger] is_walk(board, blocked@, path) && path.len() == n + 1 && path[0] == f && path.last() == c;
            let j = choose|j: int| 0 <= j < sources@.len() && sources@[j] == f;
            lemma_idx_bounds(board, c);
        }
        assert forall|c: Point| board.spec_contains(c) && (#[trigger] dist@[board.spec_idx(c)]) is Some implies {
            &&& dist_val(board, dist@, c) <= lvl + 1
            &&& dist_val(board, dist@, c) < marked.len()
            &&& src_walk(board, blocked@, sources@, c, dist_val(board, dist@, c) as nat)
        } by {
            lemma_walk_start(board, blocked@, c);
        }
        assert forall|j: int| 0 <= j < queue@.len() implies lvl <= #[trigger] dist_val(board, dist@, queue@[j]) <= lvl + 1 by {
        }
        assert forall|i: int, j: int| 0 <= i < j < queue@.len() implies dist_val(board, dist@, #[trigger] queue@[i]) <= dist_val(board, dist@, #[trigger] queue@[j]) by {
        }
        lemma_marked_bound(board, marked);
    }
    while queue.len() > 0
        invariant
            board.wf(),
            blocked@.len() == board.spec_cells(),
            dist_search_ok(board, blocked@, sources@, dist@, queue@, lvl, marked),
            forall|c: Point| board.spec_contains(c) && (#[trigger] dist@[board.spec_idx(c)]) is Some && !queue@.contains(c)
                ==> dist_expanded(board, blocked@, dist@, c, 4),
            marked.len() <= board.spec_cells(),
        decreases board.spec_cells() - marked.len() + queue@.len(),
    {
        proof {
            lemma_marked_bound(board, marked);
        }
        let ghost old_q = queue@;
        let p = queue.pop_front().unwrap();
        let pi = board.idx(p);
        let v: u32 = match dist[pi] {
            Some(v) => v,
            None => { proof { assert(false); } 0 }
        };
        proof {
            assert(old_q[0] == p);
            assert(dist_val(board, dist@, p) == v);
            let new_lvl = v as nat;
            // Raising the level: every cell one step past the old level is already known.
            if new_lvl == lvl + 1 {
                assert forall|c: Point, n: nat| n <= new_lvl && #[trigger] src_walk(board, blocked@, sources@, c, n) implies {
                    &&& board.spec_contains(c)
                    &&& dist@[board.spec_idx(c)] is Some
                    &&& dist_val(board, dist@, c) <= n
                } by {
                    if n == new_lvl {
                        let f = choose|f: Point| #[trigger] sources@.contains(f) && board.spec_contains(f) && walk_of(board, blocked@, f, c, n);
                        let m = lemma_walk_last_step(board, blocked@, f, c, lvl);
                        assert(src_walk(board, blocked@, sources@, m, lvl));
                        assert(board.spec_contains(m));
                        lemma_idx_bounds(board, m);
                        assert(dist_val(board, dist@, m) <= lvl);
                        assert(!queue@.contains(m)) by {
                            if queue@.contains(m) {
                                let w = choose|w: int| 0 <= w < queue@.len() && queue@[w] == m;
                                assert(old_q[w + 1] == m);
                                assert(dist_val(board, dist@, old_q[0]) <= dist_val(board, dist@, old_q[w + 1]));
                            }
                        }
                        assert(m != p);
                        assert(old_q.contains(m) ==> m == p) by {
                            if old_q.contains(m) {
                                let w = choose|w: int| 0 <= w < old_q.len() && old_q[w] == m;
                                if w > 0 {
                                    assert(queue@[w - 1] == m);
                                }
                            }
                        }
                        assert(dist_expanded(board, blocked@, dist@, m, 4));
                        let k = if c == m.moved(Dir::Up) { 0int } else if c == m.moved(Dir::Down) { 1int } else if c == m.moved(Dir::Left) { 2int } else { 3int };
                        assert(c == m.moved(dir_at(k)));
                        assert(open_at(board, blocked@, m.moved(dir_at(k))));
                    }
                }
            }
            lvl = new_lvl;
            assert forall|j: int| 0 <= j < queue@.len() implies lvl <= #[trigger] dist_val(board, dist@, queue@[j]) <= lvl + 1 by {
                assert(queue@[j] == old_q[j + 1]);
                assert(dist_val(board, dist@, old_q[0]) <= dist_val(board, dist@, old_q[j + 1]));
            }
            assert forall|i: int, j: int| 0 <= i < j < queue@.len() implies dist_val(board, dist@, #[trigger] queue@[i]) <= dist_val(board, dist@, #[trigger] queue@[j]) by {
                assert(queue@[i] == old_q[i + 1]);
                assert(queue@[j] == old_q[j + 1]);
            }
            assert forall|j: int| 0 <= j < queue@.len() implies board.spec_contains(#[trigger] queue@[j]) by {
                assert(queue@[j] == old_q[j + 1]);
            }
            assert forall|j: int| 0 <= j < queue@.len() implies dist@[board.spec_idx(#[trigger] queue@[j])] is Some by {
                assert(queue@[j] == old_q[j + 1]);
            }
            assert(!queue@.contains(p)) by {
                if queue@.contains(p) {
                    let w = choose|w: int| 0 <= w < queue@.len() && queue@[w] == p;
                    assert(old_q[w + 1] == p);
                    assert(old_q[0] == p);
                }
            }
            assert forall|c: Point| board.spec_contains(c) && (#[trigger] dist@[board.spec_idx(c)]) is Some && !queue@.contains(c) && c != p
                implies dist_expanded(board, blocked@, dist@, c, 4) by {
                if old_q.contains(c) {
                    let w = choose|w: int| 0 <= w < old_q.len() && old_q[w] == c;
                    if w > 0 {
                        assert(queue@[w - 1] == c);
                    }
                }
            }
            assert(queue@.no_duplicates());
            assert(dist_search_ok(board, blocked@, sources@, dist@, queue@, lvl, marked));
            lemma_in_board_steppable(board, p);
        }
        let ghost measure = board.spec_cells() - marked.len() + queue@.len();
        let mut k: usize = 0;
        while k < 4
            invariant
                board.wf(),
                blocked@.len() == board.spec_cells(),
                dist_search_ok(board, blocked@, sources@, dist@, queue@, lvl, marked),
                board.spec_cells() - marked.len() + queue@.len() <= measure,
                board.spec_contains(p),
                p.steppable(),
                pi == board.spec_idx(p),
                dist@[pi as int] == Some(v),
                v == lvl,
                !queue@.contains(p),
                forall|c: Point| board.spec_contains(c) && (#[trigger] dist@[board.spec_idx(c)]) is Some && !queue@.contains(c) && c != p
                    ==> dist_expanded(board, blocked@, dist@, c, 4),
                dist_expanded(board, blocked@, dist@, p, k as int),
                k <= 4,
            decreases 4 - k,
        {
            proof {
                lemma_marked_bound(board, marked);
            }
            let n = p.step(Dir::from_index(k));
            if board.contains(n) {
                let ni = board.idx(n);
                if !blocked[ni] && dist[ni].is_none() {
                    let ghost old_q2 = queue@;
                    let ghost old_dist = dist@;
                    let ghost old_marked = marked;
                    proof {
                        assert(!queue@.contains(n));
                        assert(!marked.contains(ni as int));
                        assert(dist_val(board, dist@, p) < marked.len());
                        assert(src_walk(board, blocked@, sources@, p, v as nat));
                        let f = choose|f: Point| #[trigger] sources@.contains(f) && board.spec_contains(f) && walk_of(board, blocked@, f, p, v as nat);
                        assert(neighbors(p, n));
                        lemma_walk_extend(board, blocked@, f, p, v as nat, n);
                        assert(src_walk(board, blocked@, sources@, n, (v + 1) as nat));
                    }
                    dist.set(ni, Some(v + 1));
                    queue.push_back(n);
                    proof {
                        marked = marked.insert(ni as int);
                        assert(marked.len() == old_marked.len() + 1);
                        assert forall|i: int| 0 <= i < board.spec_cells() implies (dist@[i] is Some <==> #[trigger] marked.contains(i)) by {
                            if i != ni {
                                assert(old_dist[i] is Some <==> old_marked.contains(i));
                            }
                        }
                        assert forall|j: int| 0 <= j < queue@.len() implies board.spec_contains(#[trigger] queue@[j]) by {
                            if j < old_q2.len() {
                                assert(old_q2[j] == queue@[j]);
                            }
                        }
                        assert forall|j: int| 0 <= j < queue@.len() implies dist@[board.spec_idx(#[trigger] queue@[j])] is Some by {
                            if j < old_q2.len() {
                                assert(old_q2[j] == queue@[j]);
                                lemma_idx_bounds(board, queue@[j]);
                            }
                        }
                        assert forall|c: Point| board.spec_contains(c) implies dist_val(board, dist@, c) == (if c == n { (v + 1) as int } else { dist_val(board, old_dist, c) }) by {
                            lemma_idx_bounds(board, c);
                            if board.spec_idx(c) == ni {
                                lemma_idx_injective(board, c, n);
                            }
                        }
                        assert forall|j: int| 0 <= j < queue@.len() implies lvl <= #[trigger] dist_val(board, dist@, queue@[j]) <= lvl + 1 by {
                            if j < old_q2.len() {
                                assert(old_q2[j] == queue@[j]);
                                assert(queue@[j] != n) by {
                                    assert(old_q2.contains(queue@[j]));
                                }
                            }
                        }
                        assert forall|i: int, j: int| 0 <= i < j < queue@.len() implies dist_val(board, dist@, #[trigger] queue@[i]) <= dist_val(board, dist@, #[trigger] queue@[j]) by {
                            assert(old_q2[i] == queue@[i]);
                            assert(queue@[i] != n) by {
                                assert(old_q2.contains(queue@[i]));
                            }
                            if j < old_q2.len() {
                                assert(old_q2[j] == queue@[j]);
                                assert(queue@[j] != n) by {
                                    assert(old_q2.contains(queue@[j]));
                                }
                            }
                        }
                        assert forall|c: Point| board.spec_contains(c) && (#[trigger] dist@[board.spec_idx(c)]) is Some implies {
                            &&& dist_val(board, dist@, c) <= lvl + 1
                            &&& dist_val(board, dist@, c) < marked.len()
                            &&& src_walk(board, blocked@, sources@, c, dist_val(board, dist@, c) as nat)
                        } by {
                            lemma_idx_bounds(board, c);
                            if c != n {
                                assert(old_dist[board.spec_idx(c)] is Some);
                            }
                        }
                        assert forall|c: Point, m: nat| m <= lvl && #[trigger] src_walk(board, blocked@, sources@, c, m) implies {
                            &&& board.spec_contains(c)
                            &&& dist@[board.spec_idx(c)] is Some
                            &&& dist_val(board, dist@, c) <= m
                        } by {
                            lemma_idx_bounds(board, c);
                            assert(old_dist[board.spec_idx(c)] is Some);
                            assert(c != n);
                        }
                        assert forall|c: Point| board.spec_contains(c) && (#[trigger] dist@[board.spec_idx(c)]) is Some && !queue@.contains(c) && c != p
                            implies dist_expanded(board, blocked@, dist@, c, 4) by {
                            lemma_idx_bounds(board, c);
                            assert(c != n) by {
                                assert(queue@[queue@.len() - 1] == n);
                            }
                            assert(old_dist[board.spec_idx(c)] is Some);
                            assert(!old_q2.contains(c)) by {
                                if old_q2.contains(c) {
                                    let w = choose|w: int| 0 <= w < old_q2.len() && old_q2[w] == c;
                                    assert(queue@[w] == c);
                                }
                            }
                            assert(dist_expanded(board, blocked@, old_dist, c, 4));
                            assert forall|kk: int| 0 <= kk < 4 && #[trigger] open_at(board, blocked@, c.moved(dir_at(kk))) implies {
                                &&& dist@[board.spec_idx(c.moved(dir_at(kk)))] is Some
                                &&& dist_val(board, dist@, c.moved(dir_at(kk))) <= dist_val(board, dist@, c) + 1
                            } by {
                                lemma_idx_bounds(board, c.moved(dir_at(kk)));
                                assert(old_dist[board.spec_idx(c.moved(dir_at(kk)))] is Some);
                                assert(c.moved(dir_at(kk)) != n);
                            }
                        }
                        assert forall|kk: int| 0 <= kk < k + 1 && #[trigger] open_at(board, blocked@, p.moved(dir_at(kk))) implies {
                            &&& dist@[board.spec_idx(p.moved(dir_at(kk)))] is Some
                            &&& dist_val(board, dist@, p.moved(dir_at(kk))) <= dist_val(board, dist@, p) + 1
                        } by {
                            lemma_idx_bounds(board, p.moved(dir_at(kk)));
                            if kk < k {
                                assert(old_dist[board.spec_idx(p.moved(dir_at(kk)))] is Some);
                                assert(p.moved(dir_at(kk)) != n);
                            }
                        }
                        assert(p != n);
                        assert(!queue@.contains(p)) by {
                            if queue@.contains(p) {
                                let w = choose|w: int| 0 <= w < queue@.len() && queue@[w] == p;
                                assert(old_q2[w] == p);
                                assert(old_q2.contains(p));
                            }
                        }
                        assert(queue@.no_duplicates());
                        assert(dist_search_ok(board, blocked@, sources@, dist@, queue@, lvl, marked));
                    }
                } else {
                    proof {
                        if !blocked@[ni as int] {
                            assert(dist@[board.spec_idx(n)] is Some);
                            assert(dist_val(board, dist@, n) <= lvl + 1);
                        }
                    }
                }
            }
            k += 1;
        }
        proof {
            lemma_marked_bound(board, marked);
        }
    }
    proof {
        assert forall|p: Point| #[trigger] board.spec_contains(p) implies distance_entry(board, blocked@, sources@, p, dist@[board.spec_idx(p)]) by {
            lemma_idx_bounds(board, p);
            match dist@[board.spec_idx(p)] {
                Some(d) => {
                    assert forall|k: nat| k < d implies !#[trigger] src_walk(board, blocked@, sources@, p, k) by {
                        if src_walk(board, blocked@, sources@, p, k) {
                            assert(dist_val(board, dist@, p) <= k);
                        }
                    }
                }
                None => {
                    assert forall|n: nat| !#[trigger] src_walk(board, blocked@, sources@, p, n) by {
                        if src_walk(board, blocked@, sources@, p, n) {
                            let f = choose|f: Point| #[trigger] sources@.contains(f) && board.spec_contains(f) && walk_of(board, blocked@, f, p, n);
                            lemma_walk_start(board, blocked@, f);
                            assert(src_walk(board, blocked@, sources@, f, 0));
                            let known = |c: Point| board.spec_contains(c) && dist@[board.spec_idx(c)] is Some;
                            assert forall|q: Point, r: Point| known(q) && #[trigger] neighbors(q, r) && open_at(board, blocked@, r) implies #[trigger] known(r) by {
                                assert(queue@.len() == 0);
                                assert(!queue@.contains(q));
                                assert(dist_expanded(board, blocked@, dist@, q, 4));
                                let k = if r == q.moved(Dir::Up) { 0int } else if r == q.moved(Dir::Down) { 1int } else if r == q.moved(Dir::Left) { 2int } else { 3int };
                                assert(r == q.moved(dir_at(k)));
                                assert(open_at(board, blocked@, q.moved(dir_at(k))));
                            }
                            lemma_closed_holds_reachable(board, blocked@, f, known, p, n);
                        }
                    }
                }
            }
        }
    }
    dist
}

/// The invariant of the single-source search that stops at the first target: `gd` records the
/// distance of every seen point, the queue is ordered by it, and it is exact up to `lvl`.
pub open spec fn first_search_ok(
    b: Board,
    blocked: Seq<bool>,
    s: Point,
    seen: Seq<bool>,
    gd: Map<Point, nat>,
    q: Seq<Point>,
    lvl: nat,
    marked: Set<int>,
) -> bool {
    &&& seen.len() == b.spec_cells()
    &&& forall|c: Point| b.spec_contains(c) ==> (seen[b.spec_idx(c)] <==> #[trigger] gd.dom().contains(c))
    &&& gd.dom().contains(s)
    &&& gd[s] == 0
    &&& forall|c: Point| #[trigger] gd.dom().contains(c) ==> c == s || open_at(b, blocked, c)
    &&& forall|i: int| 0 <= i < b.spec_cells() ==> (seen[i] <==> #[trigger] marked.contains(i))
    &&& forall|i: int| #[trigger] marked.contains(i) ==> 0 <= i < b.spec_cells()
    &&& marked.finite()
    &&& q.no_duplicates()
    &&& forall|j: int| 0 <= j < q.len() ==> gd.dom().contains(#[trigger] q[j])
    &&& forall|j: int| 0 <= j < q.len() ==> lvl <= gd[#[trigger] q[j]] <= lvl + 1
    &&& forall|i: int, j: int| 0 <= i < j < q.len() ==> gd[#[trigger] q[i]] <= gd[#[trigger] q[j]]
    &&& q.len() <= marked.len() + 1
    &&& forall|c: Point| #[trigger] gd.dom().contains(c) ==> {
        &&& gd[c] <= lvl + 1
        &&& walk_of(b, blocked, s, c, gd[c])
        &&& (gd[c] == 0 ==> c == s)
    }
    &&& forall|c: Point, n: nat| n <= lvl && #[trigger] walk_of(b, blocked, s, c, n) ==> {
        &&& gd.dom().contains(c)
        &&& gd[c] <= n
    }
}

pub open spec fn first_expanded(b: Board, blocked: Seq<bool>, gd: Map<Point, nat>, c: Point, upto: int) -> bool {
    forall|k: int| 0 <= k < upto && #[trigger] open_at(b, blocked, c.moved(dir_at(k))) ==> {
        &&& gd.dom().contains(c.moved(dir_at(k)))
        &&& gd[c.moved(dir_at(k))] <= gd[c] + 1
    }
}

/// The answer of a search from `s` for the nearest target: `Some` target other than `s` that an
/// open walk from `s` reaches in the fewest steps, or `None` when no such target is reachable.
pub open spec fn nearest_target(b: Board, blocked: Seq<bool>, s: Point, targets: Seq<Point>, r: Option<Point>) -> bool {
    match r {
        Some(f) => {
            &&& targets.contains(f)
            &&& f != s
            &&& open_at(b, blocked, f)
            &&& exists|d: nat| {
                &&& #[trigger] walk_of(b, blocked, s, f, d)
                &&& forall|g: Point, k: nat| targets.contains(g) && g != s && #[trigger] walk_of(b, blocked, s, g, k) ==> d <= k
            }
        },
        None => forall|g: Point| targets.contains(g) && g != s ==> !#[trigger] reaches(b, blocked, s, g),
    }
}

proof fn lemma_walk_zero(b: Board, blocked: Seq<bool>, s: Point, c: Point)
    requires
        walk_of(b, blocked, s, c, 0),
    ensures
        c == s,
{
    let path = choose|path: Seq<Point>|
        #[trigger] is_walk(b, blocked, path) && path.len() == 1 && path[0] == s && path.last() == c;
}

/// The queue after the search expands `p` from direction `k` on: each open neighbour that is not
/// queued yet is appended, in direction order.
pub open spec fn expand_from(b: Board, blocked: Seq<bool>, q: Seq<Point>, p: Point, k: int) -> Seq<Point>
    decreases 4 - k,
{
    if k < 0 || k >= 4 {
        q
    } else {
        let n = p.moved(dir_at(k));
        expand_from(b, blocked, if open_at(b, blocked, n) && !q.contains(n) { q.push(n) } else { q }, p, k + 1)
    }
}

/// The queue once the entries from `head` on are expanded in turn (at most `fuel` of them).
pub open spec fn bfs_queue(b: Board, blocked: Seq<bool>, q: Seq<Point>, head: int, fuel: nat) -> Seq<Point>
    decreases fuel,
{
    if fuel == 0 || head < 0 || head >= q.len() {
        q
    } else {
        bfs_queue(b, blocked, expand_from(b, blocked, q, q[head], 0), head + 1, (fuel - 1) as nat)
    }
}

/// The order in which the breadth-first search from `s` queues points: `s`, then the open cells
/// it reaches, each expanded in queue order and its neighbours taken in direction order.
pub open spec fn search_order(b: Board, blocked: Seq<bool>, s: Point) -> Seq<Point> {
    bfs_queue(b, blocked, seq![s], 0, (b.spec_cells() + 1) as nat)
}

/// The first point of `order` from place `i` on that is in `targets` and is not `s`.
pub open spec fn first_hit(order: Seq<Point>, s: Point, targets: Seq<Point>, i: int) -> Option<Point>
    decreases order.len() - i,
{
    if i < 0 || i >= order.len() {
        None
    } else if order[i] != s && targets.contains(order[i]) {
        Some(order[i])
    } else {
        first_hit(order, s, targets, i + 1)
    }
}

proof fn lemma_expand_prefix(b: Board, blocked: Seq<bool>, q: Seq<Point>, p: Point, k: int)
    ensures
        expand_from(b, blocked, q, p, k).len() >= q.len(),
        expand_from(b, blocked, q, p, k).subrange(0, q.len() as int) == q,
    decreases 4 - k,
{
    if 0 <= k < 4 {
        let n = p.moved(dir_at(k));
        let q2 = if open_at(b, blocked, n) && !q.contains(n) { q.push(n) } else { q };
        lemma_expand_prefix(b, blocked, q2, p, k + 1);
        let e = expand_from(b, blocked, q2, p, k + 1);
        assert(e.subrange(0, q.len() as int) =~= e.subrange(0, q2.len() as int).subrange(0, q.len() as int));
        assert(q2.subrange(0, q.len() as int) =~= q);
    }
}

proof fn lemma_bfs_prefix(b: Board, blocked: Seq<bool>, q: Seq<Point>, head: int, fuel: nat)
    ensures
        bfs_queue(b, blocked, q, head, fuel).len() >= q.len(),
        bfs_queue(b, blocked, q, head, fuel).subrange(0, q.len() as int) == q,
    decreases fuel,
{
    if !(fuel == 0 || head < 0 || head >= q.len()) {
        let q2 = expand_from(b, blocked, q, q[head], 0);
        lemma_expand_prefix(b, blocked, q, q[head], 0);
        lemma_bfs_prefix(b, blocked, q2, head + 1, (fuel - 1) as nat);
        let e = bfs_queue(b, blocked, q2, head + 1, (fuel - 1) as nat);
        assert(e.subrange(0, q.len() as int) =~= e.subrange(0, q2.len() as int).subrange(0, q.len() as int));
    }
}

/// Skipping places that hold no hit leaves the first hit as it was.
proof fn lemma_first_hit_skip(order: Seq<Point>, s: Point, targets: Seq<Point>, j: int)
    requires
        0 <= j <= order.len(),
        forall|i: int| 0 <= i < j ==> !(order[i] != s && targets.contains(#[trigger] order[i])),
    ensures
        first_hit(order, s, targets, 0) == first_hit(order, s, targets, j),
    decreases j,
{
    if j > 0 {
        lemma_first_hit_skip(order, s, targets, j - 1);
    }
}

/// The first hit depends only on the part of the order up to it.
proof fn lemma_first_hit_prefix(order: Seq<Point>, longer: Seq<Point>, s: Point, targets: Seq<Point>, i: int)
    requires
        0 <= i <= order.len() <= longer.len(),
        longer.subrange(0, order.len() as int) == order,
        first_hit(order, s, targets, i) is Some,
    ensures
        first_hit(longer, s, targets, i) == first_hit(order, s, targets, i),
    decreases order.len() - i,
{
    if i < order.len() {
        assert(longer[i] == order[i]);
        if !(order[i] != s && targets.contains(order[i])) {
            lemma_first_hit_prefix(order, longer, s, targets, i + 1);
        }
    }
}

/// Breadth-first search from `start` through open cells; the first point other than `start` that is
/// in `targets`, in search order.
pub(crate) fn first_reached(board: Board, start: Point, blocked: &Vec<bool>, targets: &Vec<Point>) -> (r: Option<Point>)
    requires
        board.wf(),
        blocked@.len() == board.spec_cells(),
        start.steppable(),
    ensures
        nearest_target(board, blocked@, start, targets@, r),
        r == first_hit(search_order(board, blocked@, start), start, targets@, 0),
{
    let cells = board.cells();
    let mut seen: Vec<bool> = Vec::new();
    let mut i: usize = 0;
    while i < cells
        invariant
            seen@.len() == i,
            i <= cells,
            forall|j: int| 0 <= j < i ==> !seen@[j],
        decreases cells - i,
    {
        seen.push(false);
        i += 1;
    }
    let ghost cleared = seen@;
    let ghost mut marked: Set<int> = Set::empty();
    let ghost mut gd: Map<Point, nat> = Map::empty().insert(start, 0nat);
    if board.contains(start) {
        let si = board.idx(start);
        seen.set(si, true);
        proof {
            marked = marked.insert(si as int);
        }
    }
    let mut queue: std::collections::VecDeque<Point> = std::collections::VecDeque::new();
    queue.push_back(start);
    let ghost mut lvl: nat = 0;
    let ghost mut all: Seq<Point> = seq![start];
    let ghost mut hd: int = 0;
    let ghost fuel0: int = board.spec_cells() + 1;
    proof {
        lemma_walk_start(board, blocked@, start);
        assert forall|c: Point| board.spec_contains(c) implies (seen@[board.spec_idx(c)] <==> #[trigger] gd.dom().contains(c)) by {
            lemma_idx_bounds(board, c);
            assert(!cleared[board.spec_idx(c)]);
            if board.spec_contains(start) {
                lemma_idx_bounds(board, start);
                if board.spec_idx(c) == board.spec_idx(start) {
                    lemma_idx_injective(board, c, start);
                }
            }
        }
        assert forall|c: Point, n: nat| n <= lvl && #[trigger] walk_of(board, blocked@, start, c, n) implies {
            &&& gd.dom().contains(c)
            &&& gd[c] <= n
        } by {
            lemma_walk_zero(board, blocked@, start, c);
        }
        assert(queue@ =~= seq![start]);
        assert(queue@[0] == start);
        assert(queue@ =~= all.subrange(0, 1));
        assert forall|c: Point| #[trigger] gd.dom().contains(c) <==> all.contains(c) by {
            if all.contains(c) {
                let j = choose|j: int| 0 <= j < all.len() && all[j] == c;
            }
            if gd.dom().contains(c) {
                assert(all[0] == c);
            }
        }
        assert forall|c: Point| #[trigger] gd.dom().contains(c) && !queue@.contains(c) implies first_expanded(board, blocked@, gd, c, 4) by {
            assert(c == start);
        }
        assert forall|j: int| 0 <= j < queue@.len() implies lvl <= gd[#[trigger] queue@[j]] <= lvl + 1 by {}
        assert forall|i: int, j: int| 0 <= i < j < queue@.len() implies gd[#[trigger] queue@[i]] <= gd[#[trigger] queue@[j]] by {}
    }
    while queue.len() > 0
        invariant
            board.wf(),
            blocked@.len() == board.spec_cells(),
            start.steppable(),
            first_search_ok(board, blocked@, start, seen@, gd, queue@, lvl, marked),
            forall|c: Point| #[trigger] gd.dom().contains(c) && !queue@.contains(c) ==> first_expanded(board, blocked@, gd, c, 4),
            forall|c: Point| #[trigger] gd.dom().contains(c) && !queue@.contains(c) ==> c == start || !targets@.contains(c),
            fuel0 == board.spec_cells() + 1,
            all.len() <= marked.len() + 1,
            0 <= hd <= all.len(),
            queue@ == all.subrange(hd, all.len() as int),
            all.no_duplicates(),
            forall|c: Point| #[trigger] gd.dom().contains(c) <==> all.contains(c),
            bfs_queue(board, blocked@, all, hd, (fuel0 - hd) as nat) == search_order(board, blocked@, start),
            forall|j: int| 0 <= j < hd ==> !(all[j] != start && targets@.contains(#[trigger] all[j])),
        decreases board.spec_cells() + 1 - marked.len() + queue@.len(),
    {
        proof {
            lemma_marked_bound(board, marked);
        }
        let ghost old_q = queue@;
        let p = queue.pop_front().unwrap();
        let ghost hd0 = hd;
        let ghost all0 = all;
        proof {
            assert(old_q[0] == p);
            assert(all[hd] == old_q[0]);
            hd = hd + 1;
            assert(queue@ =~= all.subrange(hd, all.len() as int));
            assert(gd.dom().contains(p));
            let v = gd[p];
            if v == lvl + 1 {
                assert forall|c: Point, n: nat| n <= v && #[trigger] walk_of(board, blocked@, start, c, n) implies {
                    &&& gd.dom().contains(c)
                    &&& gd[c] <= n
                } by {
                    if n == v {
                        let m = lemma_walk_last_step(board, blocked@, start, c, lvl);
                        assert(gd.dom().contains(m));
                        assert(gd[m] <= lvl);
                        assert(!queue@.contains(m)) by {
                            if queue@.contains(m) {
                                let w = choose|w: int| 0 <= w < queue@.len() && queue@[w] == m;
                                assert(old_q[w + 1] == m);
                                assert(gd[old_q[0]] <= gd[old_q[w + 1]]);
                            }
                        }
                        assert(!old_q.contains(m)) by {
                            if old_q.contains(m) {
                                let w = choose|w: int| 0 <= w < old_q.len() && old_q[w] == m;
                                if w > 0 {
                                    assert(queue@[w - 1] == m);
                                }
                            }
                        }
                        assert(first_expanded(board, blocked@, gd, m, 4));
                        let k = if c == m.moved(Dir::Up) { 0int } else if c == m.moved(Dir::Down) { 1int } else if c == m.moved(Dir::Left) { 2int } else { 3int };
                        assert(c == m.moved(dir_at(k)));
                        assert(open_at(board, blocked@, m.moved(dir_at(k))));
                    }
                }
            }
            lvl = v;
            assert forall|j: int| 0 <= j < queue@.len() implies lvl <= gd[#[trigger] queue@[j]] <= lvl + 1 by {
                assert(queue@[j] == old_q[j + 1]);
                assert(gd[old_q[0]] <= gd[old_q[j + 1]]);
            }
            assert forall|i: int, j: int| 0 <= i < j < queue@.len() implies gd[#[trigger] queue@[i]] <= gd[#[trigger] queue@[j]] by {
                assert(queue@[i] == old_q[i + 1]);
                assert(queue@[j] == old_q[j + 1]);
            }
            assert forall|j: int| 0 <= j < queue@.len() implies gd.dom().contains(#[trigger] queue@[j]) by {
                assert(queue@[j] == old_q[j + 1]);
            }
            assert(!queue@.contains(p)) by {
                if queue@.contains(p) {
                    let w = choose|w: int| 0 <= w < queue@.len() && queue@[w] == p;
                    assert(old_q[w + 1] == p);
                }
            }
            assert forall|c: Point| #[trigger] gd.dom().contains(c) && !queue@.contains(c) && c != p
                implies first_expanded(board, blocked@, gd, c, 4) && (c == start || !targets@.contains(c)) by {
                if old_q.contains(c) {
                    let w = choose|w: int| 0 <= w < old_q.len() && old_q[w] == c;
                    if w > 0 {
                        assert(queue@[w - 1] == c);
                    }
                }
            }
            assert(queue@.no_duplicates());
            assert(first_search_ok(board, blocked@, start, seen@, gd, queue@, lvl, marked));
        }
        if p != start && contains_point(targets, p) {
            proof {
                let d = gd[p];
                assert(walk_of(board, blocked@, start, p, d));
                assert(open_at(board, blocked@, p));
                assert forall|g: Point, k: nat| targets@.contains(g) && g != start && #[trigger] walk_of(board, blocked@, start, g, k) implies d <= k by {
                    if k < d {
                        assert(gd.dom().contains(g));
                        assert(gd[g] <= k);
                        assert(!queue@.contains(g)) by {
                            if queue@.contains(g) {
                                let w = choose|w: int| 0 <= w < queue@.len() && queue@[w] == g;
                                assert(lvl <= gd[queue@[w]]);
                            }
                        }
                        assert(g != p);
                    }
                }
                assert(walk_of(board, blocked@, start, p, d) && forall|g: Point, k: nat| targets@.contains(g) && g != start && #[trigger] walk_of(board, blocked@, start, g, k) ==> d <= k);
                lemma_first_hit_skip(all, start, targets@, hd0);
                assert(first_hit(all, start, targets@, hd0) == Some(p));
                lemma_bfs_prefix(board, blocked@, all, hd0, (fuel0 - hd0) as nat);
                lemma_first_hit_prefix(all, search_order(board, blocked@, start), start, targets@, 0);
            }
            return Some(p);
        }
        proof {
            if p != start {
                assert(!targets@.contains(p));
            }
            lemma_in_board_steppable_or_start(board, blocked@, start, p);
        }
        proof {
            assert(!(p != start && targets@.contains(p)));
            assert forall|j: int| 0 <= j < hd implies !(all[j] != start && targets@.contains(#[trigger] all[j])) by {
                if j < hd0 {
                    assert(!(all[j] != start && targets@.contains(all[j])));
                }
            }
        }
        let ghost measure = board.spec_cells() + 1 - marked.len() + queue@.len();
        let mut k: usize = 0;
        while k < 4
            invariant
                fuel0 == board.spec_cells() + 1,
                hd == hd0 + 1,
                0 <= hd0 < all0.len(),
                p == all0[hd0],
                all.len() <= marked.len() + 1,
                all.len() >= all0.len(),
                all.subrange(0, all0.len() as int) == all0,
                queue@ == all.subrange(hd, all.len() as int),
                all.no_duplicates(),
                forall|c: Point| #[trigger] gd.dom().contains(c) <==> all.contains(c),
                expand_from(board, blocked@, all, p, k as int) == expand_from(board, blocked@, all0, p, 0),
                forall|j: int| 0 <= j < hd ==> !(all[j] != start && targets@.contains(#[trigger] all[j])),
                board.wf(),
                blocked@.len() == board.spec_cells(),
                start.steppable(),
                first_search_ok(board, blocked@, start, seen@, gd, queue@, lvl, marked),
                board.spec_cells() + 1 - marked.len() + queue@.len() <= measure,
                gd.dom().contains(p),
                gd[p] == lvl,
                p.steppable(),
                p == start || !targets@.contains(p),
                !queue@.contains(p),
                forall|c: Point| #[trigger] gd.dom().contains(c) && !queue@.contains(c) && c != p
                    ==> first_expanded(board, blocked@, gd, c, 4) && (c == start || !targets@.contains(c)),
                first_expanded(board, blocked@, gd, p, k as int),
                k <= 4,
            decreases 4 - k,
        {
            proof {
                lemma_marked_bound(board, marked);
            }
            let n = p.step(Dir::from_index(k));
            if board.contains(n) {
                let ni = board.idx(n);
                if !blocked[ni] && !seen[ni] {
                    let ghost old_q2 = queue@;
                    let ghost old_seen = seen@;
                    let ghost old_gd = gd;
                    let ghost old_marked = marked;
                    proof {
                        assert(!gd.dom().contains(n));
                        assert(!queue@.contains(n));
                        assert(!marked.contains(ni as int));
                        assert(neighbors(p, n));
                        lemma_walk_extend(board, blocked@, start, p, lvl, n);
                        assert(n != start);
                    }
                    seen.set(ni, true);
                    queue.push_back(n);
                    proof {
                        let all_prev = all;
                        assert(!all_prev.contains(n));
                        assert(open_at(board, blocked@, n));
                        assert(expand_from(board, blocked@, all_prev, p, k as int) == expand_from(board, blocked@, all_prev.push(n), p, k + 1));
                        all = all_prev.push(n);
                        assert(queue@ =~= all.subrange(hd, all.len() as int));
                        assert(all.subrange(0, all0.len() as int) =~= all_prev.subrange(0, all0.len() as int));
                        assert forall|j: int| 0 <= j < hd implies !(all[j] != start && targets@.contains(#[trigger] all[j])) by {
                            assert(all[j] == all_prev[j]);
                        }
                        assert forall|c: Point| #[trigger] gd.insert(n, lvl + 1).dom().contains(c) <==> all.contains(c) by {
                            if all.contains(c) && c != n {
                                let j = choose|j: int| 0 <= j < all.len() && all[j] == c;
                                assert(all_prev[j] == c);
                            }
                            if c == n {
                                assert(all[all.len() - 1] == n);
                            } else if all_prev.contains(c) {
                                let j = choose|j: int| 0 <= j < all_prev.len() && all_prev[j] == c;
                                assert(all[j] == c);
                            }
                        }
                        marked = marked.insert(ni as int);
                        gd = gd.insert(n, lvl + 1);
                        assert forall|c: Point| board.spec_contains(c) implies (seen@[board.spec_idx(c)] <==> #[trigger] gd.dom().contains(c)) by {
                            lemma_idx_bounds(board, c);
                            if board.spec_idx(c) == ni {
                                lemma_idx_injective(board, c, n);
                            } else {
                                assert(old_seen[board.spec_idx(c)] <==> old_gd.dom().contains(c));
                            }
                        }
                        assert forall|i: int| 0 <= i < board.spec_cells() implies (seen@[i] <==> #[trigger] marked.contains(i)) by {
                            if i != ni {
                                assert(old_seen[i] <==> old_marked.contains(i));
                            }
                        }
                        assert forall|j: int| 0 <= j < queue@.len() implies gd.dom().contains(#[trigger] queue@[j]) by {
                            if j < old_q2.len() {
                                assert(old_q2[j] == queue@[j]);
                            }
                        }
                        assert forall|j: int| 0 <= j < queue@.len() implies lvl <= gd[#[trigger] queue@[j]] <= lvl + 1 by {
                            if j < old_q2.len() {
                                assert(old_q2[j] == queue@[j]);
                                assert(old_gd.dom().contains(old_q2[j]));
                            }
                        }
                        assert forall|i: int, j: int| 0 <= i < j < queue@.len() implies gd[#[trigger] queue@[i]] <= gd[#[trigger] queue@[j]] by {
                            assert(old_q2[i] == queue@[i]);
                            assert(old_gd.dom().contains(old_q2[i]));
                            if j < old_q2.len() {
                                assert(old_q2[j] == queue@[j]);
                                assert(old_gd.dom().contains(old_q2[j]));
                            }
                        }
                        assert forall|c: Point| #[trigger] gd.dom().contains(c) implies {
                            &&& gd[c] <= lvl + 1
                            &&& walk_of(board, blocked@, start, c, gd[c])
                            &&& (gd[c] == 0 ==> c == start)
                        } by {
                            if c != n {
                                assert(old_gd.dom().contains(c));
                            }
                        }
                        assert forall|c: Point| #[trigger] gd.dom().contains(c) implies c == start || open_at(board, blocked@, c) by {
                            if c != n {
                                assert(old_gd.dom().contains(c));
                            }
                        }
                        assert forall|c: Point, m: nat| m <= lvl && #[trigger] walk_of(board, blocked@, start, c, m) implies {
                            &&& gd.dom().contains(c)
                            &&& gd[c] <= m
                        } by {
                            assert(old_gd.dom().contains(c));
                            assert(c != n);
                        }
                        assert forall|c: Point| #[trigger] gd.dom().contains(c) && !queue@.contains(c) && c != p
                            implies first_expanded(board, blocked@, gd, c, 4) && (c == start || !targets@.contains(c)) by {
                            assert(c != n) by {
                                assert(queue@[queue@.len() - 1] == n);
                            }
                            assert(old_gd.dom().contains(c));
                            assert(!old_q2.contains(c)) by {
                                if old_q2.contains(c) {
                                    let w = choose|w: int| 0 <= w < old_q2.len() && old_q2[w] == c;
                                    assert(queue@[w] == c);
                                }
                            }
                            assert(first_expanded(board, blocked@, old_gd, c, 4));
                            assert forall|kk: int| 0 <= kk < 4 && #[trigger] open_at(board, blocked@, c.moved(dir_at(kk))) implies {
                                &&& gd.dom().contains(c.moved(dir_at(kk)))
                                &&& gd[c.moved(dir_at(kk))] <= gd[c] + 1
                            } by {
                                assert(old_gd.dom().contains(c.moved(dir_at(kk))));
                                assert(c.moved(dir_at(kk)) != n);
                            }
                        }
                        assert forall|kk: int| 0 <= kk < k + 1 && #[trigger] open_at(board, blocked@, p.moved(dir_at(kk))) implies {
                            &&& gd.dom().contains(p.moved(dir_at(kk)))
                            &&& gd[p.moved(dir_at(kk))] <= gd[p] + 1
                        } by {
                            if kk < k {
                                assert(old_gd.dom().contains(p.moved(dir_at(kk))));
                                assert(p.moved(dir_at(kk)) != n);
                            }
                        }
                        assert(!queue@.contains(p)) by {
                            if queue@.contains(p) {
                                let w = choose|w: int| 0 <= w < queue@.len() && queue@[w] == p;
                                assert(old_q2[w] == p);
                                assert(old_q2.contains(p));
                            }
                        }
                        assert(queue@.no_duplicates());
                        assert(first_search_ok(board, blocked@, start, seen@, gd, queue@, lvl, marked));
                    }
                } else {
                    proof {
                        if !blocked@[ni as int] {
                            assert(gd.dom().contains(n));
                            assert(gd[n] <= lvl + 1);
                            assert(all.contains(n));
                        }
                        assert(expand_from(board, blocked@, all, p, k as int) == expand_from(board, blocked@, all, p, k + 1));
                    }
                }
            } else {
                proof {
                    assert(!open_at(board, blocked@, n));
                    assert(expand_from(board, blocked@, all, p, k as int) == expand_from(board, blocked@, all, p, k + 1));
                }
            }
            k += 1;
        }
        proof {
            lemma_marked_bound(board, marked);
            assert(all == expand_from(board, blocked@, all0, all0[hd0], 0));
            assert(fuel0 - hd0 > 0);
            assert(bfs_queue(board, blocked@, all0, hd0, (fuel0 - hd0) as nat) == bfs_queue(board, blocked@, all, hd, (fuel0 - hd) as nat));
        }
    }
    proof {
        assert forall|g: Point| targets@.contains(g) && g != start implies !#[trigger] reaches(board, blocked@, start, g) by {
            if reaches(board, blocked@, start, g) {
                let inside = |c: Point| gd.dom().contains(c);
                assert forall|q: Point, r: Point| inside(q) && #[trigger] neighbors(q, r) && open_at(board, blocked@, r) implies #[trigger] inside(r) by {
                    assert(queue@.len() == 0);
                    assert(!queue@.contains(q));
                    assert(first_expanded(board, blocked@, gd, q, 4));
                    let k = if r == q.moved(Dir::Up) { 0int } else if r == q.moved(Dir::Down) { 1int } else if r == q.moved(Dir::Left) { 2int } else { 3int };
                    assert(r == q.moved(dir_at(k)));
                    assert(open_at(board, blocked@, q.moved(dir_at(k))));
                }
                lemma_reaches_closed(board, blocked@, start, inside, g);
                assert(!queue@.contains(g));
            }
        }
        assert(hd == all.len());
        assert(bfs_queue(board, blocked@, all, hd, (fuel0 - hd) as nat) == all);
        lemma_first_hit_skip(all, start, targets@, all.len() as int);
    }
    None
}

proof fn lemma_in_board_steppable_or_start(b: Board, blocked: Seq<bool>, s: Point, p: Point)
    requires
        b.wf(),
        s.steppable(),
        p == s || open_at(b, blocked, p),
    ensures
        p.steppable(),
{
}

} // verus!
