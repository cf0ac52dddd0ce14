//! Positions to time and cross-check the model on: a greedy safe-move player, snapshotted at
//! every step, each position with its own key-to-direction shuffle. Everything is drawn from
//! seeded generators, so the same count always gives the same positions.

use vstd::prelude::*;
use crate::chance::Dice;
use crate::game::{board_of, fatal_spec, refill_from, round_from, Dir, GameSnapshot, Point, Rules, SnakeGame};
use crate::grid::{dir_at, is_order};
pub use crate::chance::{lcg_step, Lcg, LCG_ADD, LCG_MUL};

verus! {

/// The board the scenarios are played on.
pub const SCENARIO_W: usize = 24;

pub const SCENARIO_H: usize = 14;

/// The seed of both generators: the one that draws the key orders and the player's tie-breaks,
/// and the game's, which draws the rock layouts and the foods.
pub const SCENARIO_SEED: u64 = 42;

/// `s` with the entries at `i` and `j` exchanged.
pub open spec fn swapped(s: Seq<Dir>, i: int, j: int) -> Seq<Dir> {
    s.update(i, s[j]).update(j, s[i])
}

/// The key order drawn from generator state `seed`: the canonical order shuffled back to front,
/// each place `i` exchanged with a place drawn from `0..=i`; and the generator state after.
pub open spec fn shuffle_spec(seed: u64) -> (Seq<Dir>, u64) {
    let s1 = lcg_step(seed);
    let o1 = swapped(Dir::ALL@, 3, ((s1 >> 33) % 4) as int);
    let s2 = lcg_step(s1);
    let o2 = swapped(o1, 2, ((s2 >> 33) % 3) as int);
    let s3 = lcg_step(s2);
    let o3 = swapped(o2, 1, ((s3 >> 33) % 2) as int);
    (o3, s3)
}

proof fn lemma_swap_keeps_order(s: Seq<Dir>, i: int, j: int)
    requires
        is_order(s),
        0 <= i < 4,
        0 <= j < 4,
    ensures
        is_order(swapped(s, i, j)),
{
    let t = swapped(s, i, j);
    assert forall|a: int, b: int| 0 <= a < t.len() && 0 <= b < t.len() && a != b implies t[a] != t[b] by {
        let pa = if a == i { j } else if a == j { i } else { a };
        let pb = if b == i { j } else if b == j { i } else { b };
        assert(t[a] == s[pa]);
        assert(t[b] == s[pb]);
    }
}

/// Draws a key order from the generator.
pub fn shuffle_keys(rng: &mut Lcg) -> (order: [Dir; 4])
    ensures
        (order@, final(rng).state) == shuffle_spec(old(rng).state),
        is_order(order@),
{
    let mut order = Dir::ALL;
    proof {
        assert(order@ == Dir::ALL@);
        assert(is_order(order@)) by {
            assert(order@[0] == Dir::Up && order@[1] == Dir::Down && order@[2] == Dir::Left && order@[3] == Dir::Right);
        }
    }
    let j = (rng.next() % 4) as usize;
    proof { lemma_swap_keeps_order(order@, 3, j as int); }
    let t = order[3];
    order[3] = order[j];
    order[j] = t;
    let j = (rng.next() % 3) as usize;
    proof { lemma_swap_keeps_order(order@, 2, j as int); }
    let t = order[2];
    order[2] = order[j];
    order[j] = t;
    let j = (rng.next() % 2) as usize;
    proof { lemma_swap_keeps_order(order@, 1, j as int); }
    let t = order[1];
    order[1] = order[j];
    order[j] = t;
    order
}

/// A position of the scenario game: the snake (head first), the foods and the rocks.
pub struct Pos {
    pub snake: Seq<Point>,
    pub foods: Seq<Point>,
    pub obstacles: Seq<Point>,
}

/// The position a snapshot shows.
pub open spec fn pos_of(s: GameSnapshot) -> Pos {
    Pos { snake: s.snake@, foods: s.foods@, obstacles: s.obstacles@ }
}

/// Moving in `d` from `q` ends the game, on the scenario board.
pub open spec fn pos_fatal(q: Pos, d: Dir) -> bool {
    fatal_spec(board_of(SCENARIO_W, SCENARIO_H), q.obstacles, q.snake, q.foods, q.snake[0].moved(d))
}

/// How the greedy player rates moving the head `h` in `d` toward `f`: four times the Manhattan
/// distance from the new head to `f`, plus `draw` modulo three to break near-ties.
pub open spec fn dist_score(h: Point, d: Dir, f: Point, draw: u64) -> int {
    let q = h.moved(d);
    let ax = if f.x >= q.x { f.x - q.x } else { q.x - f.x };
    let ay = if f.y >= q.y { f.y - q.y } else { q.y - f.y };
    (ax + ay) * 4 + (draw % 3) as int
}

/// The greedy scan over the directions from place `k` on, in the canonical order, from generator
/// state `st` with `best` the best (direction, score) so far: every safe direction draws one
/// number and takes over when its score is strictly lower. The result is the best pair and the
/// generator state after.
pub open spec fn greedy_from(q: Pos, f: Point, k: int, st: u64, best: Option<(Dir, int)>) -> (Option<(Dir, int)>, u64)
    decreases 4 - k,
{
    if k < 0 || k >= 4 {
        (best, st)
    } else {
        let d = dir_at(k);
        if pos_fatal(q, d) {
            greedy_from(q, f, k + 1, st, best)
        } else {
            let st2 = lcg_step(st);
            let sc = dist_score(q.snake[0], d, f, st2 >> 33);
            let nb = match best {
                Some((_, b)) => if sc < b { Some((d, sc)) } else { best },
                None => Some((d, sc)),
            };
            greedy_from(q, f, k + 1, st2, nb)
        }
    }
}

/// The greedy player's move toward `f` from position `q` with generator state `st`, and the
/// generator state after its draws.
pub open spec fn greedy_pick(q: Pos, f: Point, st: u64) -> (Option<Dir>, u64) {
    let (b, st2) = greedy_from(q, f, 0, st, None);
    (
        match b {
            Some((d, _)) => Some(d),
            None => None,
        },
        st2,
    )
}

/// The scan never picks a fatal direction, and comes back empty only when every direction from
/// place `k` on is fatal and nothing was picked before.
proof fn lemma_greedy_safe(q: Pos, f: Point, k: int, st: u64, best: Option<(Dir, int)>)
    requires
        0 <= k <= 4,
        best matches Some((d, _)) ==> !pos_fatal(q, d),
    ensures
        greedy_from(q, f, k, st, best).0 matches Some((d, _)) ==> !pos_fatal(q, d),
        greedy_from(q, f, k, st, best).0 is None ==> best is None && forall|m: int| k <= m < 4 ==> pos_fatal(q, #[trigger] dir_at(m)),
    decreases 4 - k,
{
    if k < 4 {
        let d = dir_at(k);
        if pos_fatal(q, d) {
            lemma_greedy_safe(q, f, k + 1, st, best);
        } else {
            let st2 = lcg_step(st);
            let sc = dist_score(q.snake[0], d, f, st2 >> 33);
            let nb = match best {
                Some((_, b)) => if sc < b { Some((d, sc)) } else { best },
                None => Some((d, sc)),
            };
            lemma_greedy_safe(q, f, k + 1, st2, nb);
        }
    }
}

/// The score of a pick as the scan keeps it.
pub open spec fn best_view(best: Option<(Dir, i64)>) -> Option<(Dir, int)> {
    match best {
        Some((d, sc)) => Some((d, sc as int)),
        None => None,
    }
}

/// The greedy player's move toward `food`: among the safe directions, the one whose next head is
/// closest to `food` (Manhattan distance, times four, plus a draw from `0..3` to break
/// near-ties); the first such direction on a tie. `None` when every move is fatal.
fn greedy_move(snap: &GameSnapshot, food: Point, rng: &mut Lcg) -> (r: Option<Dir>)
    requires
        snap.wf(),
        snap.width == SCENARIO_W,
        snap.height == SCENARIO_H,
    ensures
        (r, final(rng).state) == greedy_pick(pos_of(*snap), food, old(rng).state),
        r matches Some(d) ==> !snap.fatal(d),
{
    let ghost q = pos_of(*snap);
    let h = snap.head();
    let mut best: Option<(Dir, i64)> = None;
    let mut k: usize = 0;
    while k < 4
        invariant
            snap.wf(),
            snap.width == SCENARIO_W,
            snap.height == SCENARIO_H,
            q == pos_of(*snap),
            h == snap.spec_head(),
            k <= 4,
            greedy_from(q, food, k as int, rng.state, best_view(best)) == greedy_from(q, food, 0, old(rng).state, None),
            best matches Some((d, _)) ==> !snap.fatal(d),
        decreases 4 - k,
    {
        let d = Dir::from_index(k);
        assert(snap.fatal(d) == pos_fatal(q, d));
        if !snap.is_fatal(d) {
            let (dx, dy) = d.delta();
            let nx = h.x as i64 + dx as i64;
            let ny = h.y as i64 + dy as i64;
            let ax = if food.x as i64 >= nx { food.x as i64 - nx } else { nx - food.x as i64 };
            let ay = if food.y as i64 >= ny { food.y as i64 - ny } else { ny - food.y as i64 };
            let draw = rng.next();
            let score = (ax + ay) * 4 + (draw % 3) as i64;
            proof {
                assert(h.moved(d).x == nx && h.moved(d).y == ny);
                assert(score == dist_score(h, d, food, draw));
            }
            let better = match best {
                None => true,
                Some((_, s)) => score < s,
            };
            if better {
                best = Some((d, score));
            }
        }
        k += 1;
    }
    match best {
        Some((d, _)) => Some(d),
        None => None,
    }
}

/// The player's move from position `q` with generator state `st`: the greedy move toward the
/// first food when there is food, none otherwise; and the generator state after.
pub open spec fn player_move(q: Pos, st: u64) -> (Option<Dir>, u64) {
    if q.foods.len() > 0 {
        greedy_pick(q, q.foods[0], st)
    } else {
        (None, st)
    }
}

/// The player never picks a move that ends the game.
pub proof fn lemma_player_move_safe(q: Pos, st: u64)
    ensures
        player_move(q, st).0 matches Some(d) ==> !pos_fatal(q, d),
{
    if q.foods.len() > 0 {
        lemma_greedy_safe(q, q.foods[0], 0, st, None);
    }
}

/// Where `p` first occurs in `s` (the length of `s` when it does not).
pub open spec fn first_at(s: Seq<Point>, p: Point) -> int
    decreases s.len(),
{
    if s.len() == 0 {
        0
    } else if s[0] == p {
        0
    } else {
        1 + first_at(s.drop_first(), p)
    }
}

proof fn lemma_first_at(s: Seq<Point>, p: Point)
    requires
        s.contains(p),
    ensures
        0 <= first_at(s, p) < s.len(),
        s[first_at(s, p)] == p,
        forall|j: int| 0 <= j < first_at(s, p) ==> s[j] != p,
    decreases s.len(),
{
    if s[0] != p {
        let t = s.drop_first();
        let k = choose|k: int| 0 <= k < s.len() && s[k] == p;
        assert(t[k - 1] == p);
        lemma_first_at(t, p);
        assert forall|j: int| 0 <= j < first_at(s, p) implies s[j] != p by {
            if j > 0 {
                assert(s[j] == t[j - 1]);
            }
        }
    }
}

/// The position after the safe move `d` from `q`, with the game's generator in state `g`, and
/// that generator's state after: the head moves on; on a food the snake grows, the food is taken
/// off (the last food fills its place) and the foods are topped up again; otherwise the tail
/// follows.
pub open spec fn step_pos(q: Pos, d: Dir, g: u64) -> (Pos, u64) {
    let p = q.snake[0].moved(d);
    if q.foods.contains(p) {
        let snake = seq![p] + q.snake;
        let base = q.foods.update(first_at(q.foods, p), q.foods.last()).drop_last();
        let (foods, g2) = refill_from(board_of(SCENARIO_W, SCENARIO_H), q.obstacles, snake, base, 5, g);
        (Pos { snake, foods, obstacles: q.obstacles }, g2)
    } else {
        (Pos { snake: (seq![p] + q.snake).drop_last(), foods: q.foods, obstacles: q.obstacles }, g)
    }
}

/// A fresh round on the scenario board, five foods and rocks, with the game's generator in state
/// `g`; and that generator's state after.
pub open spec fn fresh_pos(g: u64) -> (Pos, u64) {
    let r = round_from(SCENARIO_W, SCENARIO_H, Rules { foods: 5, obstacles: true }, g);
    (Pos { snake: r.0, foods: r.2, obstacles: r.1 }, r.3)
}

/// The first `n` scenario positions, each with its key order; then the position that comes
/// next, the key generator's state and the game generator's state. Both generators start from
/// `SCENARIO_SEED`; the game opens with a fresh round. At each position the key order is drawn,
/// then the player picks its move; the next position is that move's result, or a fresh round
/// when there was no move.
pub open spec fn play(n: nat) -> (Seq<(Pos, Seq<Dir>)>, Pos, u64, u64)
    decreases n,
{
    if n == 0 {
        let (q, g) = fresh_pos(SCENARIO_SEED);
        (Seq::empty(), q, SCENARIO_SEED, g)
    } else {
        let (out, q, k, g) = play((n - 1) as nat);
        let (order, k1) = shuffle_spec(k);
        let (mv, k2) = player_move(q, k1);
        let (q2, g2) = match mv {
            Some(d) => step_pos(q, d, g),
            None => fresh_pos(g),
        };
        (out.push((q, order)), q2, k2, g2)
    }
}

proof fn lemma_play_len(n: nat)
    ensures
        play(n).0.len() == n,
    decreases n,
{
    if n > 0 {
        lemma_play_len((n - 1) as nat);
    }
}

/// Plays the player's choice on the scenario game: the move, or a fresh round when there is none.
#[verifier::rlimit(40)]
fn advance(game: &mut SnakeGame, mv: Option<Dir>, Ghost(q): Ghost<Pos>, Ghost(g): Ghost<u64>)
    requires
        old(game).wf(),
        old(game).width == SCENARIO_W,
        old(game).height == SCENARIO_H,
        old(game).rules == (Rules { foods: 5, obstacles: true }),
        !old(game).game_over,
        old(game).score < u32::MAX,
        old(game).dice == Dice::Seeded(g),
        old(game).snake@ == q.snake,
        old(game).foods@ == q.foods,
        old(game).obstacles@ == q.obstacles,
        mv matches Some(d) ==> !pos_fatal(q, d),
    ensures
        final(game).wf(),
        final(game).width == SCENARIO_W,
        final(game).height == SCENARIO_H,
        final(game).rules == (Rules { foods: 5, obstacles: true }),
        !final(game).game_over,
        final(game).score <= old(game).score + 1,
        ({
            let (q2, g2) = match mv {
                Some(d) => step_pos(q, d, g),
                None => fresh_pos(g),
            };
            &&& final(game).dice == Dice::Seeded(g2)
            &&& final(game).snake@ == q2.snake
            &&& final(game).foods@ == q2.foods
            &&& final(game).obstacles@ == q2.obstacles
        }),
{
    match mv {
        Some(d) => {
            proof {
                assert(old(game).fatal(d) == pos_fatal(q, d));
                let p = old(game).spec_head().moved(d);
                if q.foods.contains(p) {
                    lemma_first_at(q.foods, p);
                }
            }
            game.step(d);
        },
        None => {
            game.reset();
        },
    }
    if game.game_over {
        game.reset();
    }
}

/// `n` positions for timing and cross-checking the model: a greedy safe-move player on a 24x14
/// board, snapshotted before every move, each with its key order. The player heads for the first
/// food on the board; a round that ends (or leaves no food or no safe move) starts over. The key
/// orders and the player's tie-breaks come from a generator seeded with 42, the rocks and foods
/// from the game's own generator seeded the same way: the result is `play(n)`, the same on every
/// call.
pub fn scenarios(n: usize) -> (out: Vec<(GameSnapshot, [Dir; 4])>)
    requires
        n < u32::MAX,
    ensures
        out@.len() == n,
        forall|i: int| 0 <= i < n ==> {
            let (s, o) = #[trigger] out@[i];
            &&& s.wf()
            &&& s.width == SCENARIO_W
            &&& s.height == SCENARIO_H
            &&& pos_of(s) == play(n as nat).0[i].0
            &&& o@ == play(n as nat).0[i].1
            &&& is_order(o@)
        },
{
    let mut rng = Lcg { state: SCENARIO_SEED };
    let mut game = SnakeGame::seeded(SCENARIO_W, SCENARIO_H, Rules { foods: 5, obstacles: true }, SCENARIO_SEED);
    let mut out: Vec<(GameSnapshot, [Dir; 4])> = Vec::new();
    proof {
        lemma_play_len(0);
    }
    while out.len() < n
        invariant
            game.wf(),
            game.width == SCENARIO_W,
            game.height == SCENARIO_H,
            game.rules == (Rules { foods: 5, obstacles: true }),
            !game.game_over,
            game.score <= out@.len(),
            out@.len() <= n,
            n < u32::MAX,
            play(out@.len() as nat).0.len() == out@.len(),
            rng.state == play(out@.len() as nat).2,
            game.dice == Dice::Seeded(play(out@.len() as nat).3),
            game.snake@ == play(out@.len() as nat).1.snake,
            game.foods@ == play(out@.len() as nat).1.foods,
            game.obstacles@ == play(out@.len() as nat).1.obstacles,
            forall|i: int| 0 <= i < out@.len() ==> {
                let (s, o) = #[trigger] out@[i];
                &&& s.wf()
                &&& s.width == SCENARIO_W
                &&& s.height == SCENARIO_H
                &&& pos_of(s) == play(out@.len() as nat).0[i].0
                &&& o@ == play(out@.len() as nat).0[i].1
                &&& is_order(o@)
            },
        decreases n - out@.len(),
    {
        let ghost len = out@.len() as nat;
        let ghost q = play(len).1;
        let ghost g = play(len).3;
        let snap = GameSnapshot::from_game(&game);
        assert(pos_of(snap) == q);
        let order = shuffle_keys(&mut rng);
        let mv = if snap.foods.len() > 0 {
            let food = snap.foods[0];
            greedy_move(&snap, food, &mut rng)
        } else {
            None
        };
        let ghost before = out@;
        proof {
            assert((mv, rng.state) == player_move(q, shuffle_spec(play(len).2).1));
            assert(play(len + 1).0 == play(len).0.push((q, order@)));
        }
        out.push((snap, order));
        proof {
            assert forall|i: int| 0 <= i < before.len() implies #[trigger] out@[i] == before[i] by {}
        }
        proof {
            lemma_player_move_safe(q, shuffle_spec(play(len).2).1);
        }
        advance(&mut game, mv, Ghost(q), Ghost(g));
        proof {
            assert(rng.state == play(out@.len() as nat).2);
        }
    }
    out
}

} // verus!
