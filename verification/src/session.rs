//! The bookkeeping of a playing session: why a round ended, the counters across rounds, the
//! rows kept for the history, and what the UI shows about the model.

use vstd::prelude::*;
use std::collections::VecDeque;
use crate::game::{Dir, SnakeGame};
use crate::text::{decimal, push_digits, push_text, text_is, text_of};

verus! {

broadcast use vstd::std_specs::vecdeque::group_vec_dequeue_axioms;

/// How many executed moves the move history keeps.
pub const MOVE_HISTORY: usize = 240;

/// How many finished rounds are kept.
pub const ROUND_HISTORY: usize = 100;

/// How many past moves the trail under the board shows.
pub const TRAIL_LEN: usize = 16;

/// Over how many recent decisions the decision rate is measured.
pub const RATE_WINDOW: usize = 12;

/// Why a round ended.
#[derive(Clone, Copy, Debug, PartialEq, Eq, Structural)]
pub enum RoundEnd {
    /// The snake left the board.
    Wall,
    /// The snake ran into a rock.
    Rock,
    /// The snake ran into its own body.
    Itself,
    /// No free cell was left for food.
    BoardFull,
    /// The player started a new round (or changed the board).
    Reset,
}

impl RoundEnd {
    /// The label the history shows: "wall", "rock", "self", "board full" or "reset".
    pub fn label(self) -> (s: &'static str)
        ensures
            s@ == (match self {
                RoundEnd::Wall => "wall"@,
                RoundEnd::Rock => "rock"@,
                RoundEnd::Itself => "self"@,
                RoundEnd::BoardFull => "board full"@,
                RoundEnd::Reset => "reset"@,
            }),
    {
        match self {
            RoundEnd::Wall => "wall",
            RoundEnd::Rock => "rock",
            RoundEnd::Itself => "self",
            RoundEnd::BoardFull => "board full",
            RoundEnd::Reset => "reset",
        }
    }
}

/// What ends the round when the snake moves in `dir`: nothing for a safe move, the fence when the
/// head would leave the board, a rock when it would land on one, and the snake itself for any
/// other fatal move (its body).
pub open spec fn death_spec(game: SnakeGame, dir: Dir) -> Option<RoundEnd> {
    let p = game.spec_head().moved(dir);
    if !game.fatal(dir) {
        None
    } else if !game.spec_board().spec_contains(p) {
        Some(RoundEnd::Wall)
    } else if game.obstacles@.contains(p) {
        Some(RoundEnd::Rock)
    } else {
        Some(RoundEnd::Itself)
    }
}

/// Why moving in `dir` would end the round, if it would.
pub fn death_cause(game: &SnakeGame, dir: Dir) -> (r: Option<RoundEnd>)
    requires
        game.wf(),
    ensures
        r == death_spec(*game, dir),
{
    let head = game.next_head(dir);
    if !game.is_fatal(dir) {
        None
    } else if head.x < 0 || head.y < 0 || head.x >= game.width as i32 || head.y >= game.height as i32 {
        Some(RoundEnd::Wall)
    } else if game.is_obstacle(head) {
        Some(RoundEnd::Rock)
    } else {
        Some(RoundEnd::Itself)
    }
}

/// Session-wide counts across all rounds.
#[derive(Clone, Copy, Debug)]
pub struct Tally {
    pub decisions: u64,
    pub interventions: u64,
    pub food: u64,
    pub model_errors: u64,
    pub deaths_wall: u64,
    pub deaths_rock: u64,
    pub deaths_self: u64,
    /// Executed moves per direction, in the canonical order.
    pub dir_counts: [u64; 4],
}

/// The counts after one more executed move.
pub open spec fn tally_after(t: Tally, chosen: Dir, intervened: bool, ate: bool, death: Option<RoundEnd>) -> Tally {
    Tally {
        decisions: (t.decisions + 1) as u64,
        interventions: (if intervened { t.interventions + 1 } else { t.interventions as int }) as u64,
        food: (if ate { t.food + 1 } else { t.food as int }) as u64,
        model_errors: t.model_errors,
        deaths_wall: (if death == Some(RoundEnd::Wall) { t.deaths_wall + 1 } else { t.deaths_wall as int }) as u64,
        deaths_rock: (if death == Some(RoundEnd::Rock) { t.deaths_rock + 1 } else { t.deaths_rock as int }) as u64,
        deaths_self: (if death == Some(RoundEnd::Itself) { t.deaths_self + 1 } else { t.deaths_self as int }) as u64,
        dir_counts: t.dir_counts,
    }
}

impl Tally {
    /// All counts at zero.
    pub fn new() -> (t: Self)
        ensures
            t.decisions == 0 && t.interventions == 0 && t.food == 0 && t.model_errors == 0,
            t.deaths_wall == 0 && t.deaths_rock == 0 && t.deaths_self == 0,
            forall|i: int| 0 <= i < 4 ==> t.dir_counts@[i] == 0,
    {
        Tally {
            decisions: 0,
            interventions: 0,
            food: 0,
            model_errors: 0,
            deaths_wall: 0,
            deaths_rock: 0,
            deaths_self: 0,
            dir_counts: [0, 0, 0, 0],
        }
    }

    /// No count can overflow on the next move.
    pub open spec fn room(self) -> bool {
        &&& self.decisions < u64::MAX
        &&& self.interventions < u64::MAX
        &&& self.food < u64::MAX
        &&& self.deaths_wall < u64::MAX
        &&& self.deaths_rock < u64::MAX
        &&& self.deaths_self < u64::MAX
        &&& forall|i: int| 0 <= i < 4 ==> self.dir_counts@[i] < u64::MAX
    }

    /// Whether one more move can be counted.
    pub fn has_room(&self) -> (r: bool)
        ensures
            r == self.room(),
    {
        let ok = self.decisions < u64::MAX && self.interventions < u64::MAX && self.food < u64::MAX
            && self.deaths_wall < u64::MAX && self.deaths_rock < u64::MAX && self.deaths_self < u64::MAX;
        let dirs = self.dir_counts[0] < u64::MAX && self.dir_counts[1] < u64::MAX && self.dir_counts[2] < u64::MAX
            && self.dir_counts[3] < u64::MAX;
        proof {
            assert(dirs == forall|i: int| 0 <= i < 4 ==> self.dir_counts@[i] < u64::MAX) by {
                if dirs {
                    assert forall|i: int| 0 <= i < 4 implies self.dir_counts@[i] < u64::MAX by {
                        assert(i == 0 || i == 1 || i == 2 || i == 3);
                    }
                }
            }
        }
        ok && dirs
    }

    /// Count one executed move in direction `chosen`: whether the shield overrode the model,
    /// whether it ate, and how it ended the round, if it did.
    pub fn record_move(&mut self, chosen: Dir, intervened: bool, ate: bool, death: Option<RoundEnd>)
        requires
            old(self).room(),
        ensures
            ({
                let t = tally_after(*old(self), chosen, intervened, ate, death);
                &&& final(self).decisions == t.decisions
                &&& final(self).interventions == t.interventions
                &&& final(self).food == t.food
                &&& final(self).model_errors == t.model_errors
                &&& final(self).deaths_wall == t.deaths_wall
                &&& final(self).deaths_rock == t.deaths_rock
                &&& final(self).deaths_self == t.deaths_self
            }),
            final(self).dir_counts@ == old(self).dir_counts@.update(
                chosen.spec_index(),
                (old(self).dir_counts@[chosen.spec_index()] + 1) as u64,
            ),
    {
        self.decisions = self.decisions + 1;
        let k = chosen.index();
        self.dir_counts[k] = self.dir_counts[k] + 1;
        if intervened {
            self.interventions = self.interventions + 1;
        }
        if ate {
            self.food = self.food + 1;
        }
        match death {
            Some(RoundEnd::Wall) => self.deaths_wall = self.deaths_wall + 1,
            Some(RoundEnd::Rock) => self.deaths_rock = self.deaths_rock + 1,
            Some(RoundEnd::Itself) => self.deaths_self = self.deaths_self + 1,
            _ => {},
        }
    }

    /// Count one failed model call.
    pub fn record_error(&mut self)
        requires
            old(self).model_errors < u64::MAX,
        ensures
            *final(self) == (Tally { model_errors: (old(self).model_errors + 1) as u64, ..*old(self) }),
    {
        self.model_errors = self.model_errors + 1;
    }
}

/// The counts of the round being played.
#[derive(Clone, Copy, Debug, PartialEq, Eq, Structural)]
pub struct Round {
    /// The round's number, from 1.
    pub number: u32,
    pub decisions: u32,
    pub interventions: u32,
    /// The round is already in the history.
    pub recorded: bool,
}

impl Round {
    /// Round `number`, nothing played yet.
    pub fn new(number: u32) -> (r: Self)
        ensures
            r == (Round { number, decisions: 0, interventions: 0, recorded: false }),
    {
        Round { number, decisions: 0, interventions: 0, recorded: false }
    }

    /// Count one executed move.
    pub fn record_move(&mut self, intervened: bool)
        requires
            old(self).decisions < u32::MAX,
            old(self).interventions < u32::MAX,
        ensures
            *final(self) == (Round {
                decisions: (old(self).decisions + 1) as u32,
                interventions: (if intervened { old(self).interventions + 1 } else { old(self).interventions as int }) as u32,
                ..*old(self)
            }),
    {
        self.decisions = self.decisions + 1;
        if intervened {
            self.interventions = self.interventions + 1;
        }
    }

    /// Whether the round goes into the history now, and marks it as written: once per round, and
    /// never for a round with no moves.
    pub fn finish(&mut self) -> (write: bool)
        ensures
            write == (!old(self).recorded && old(self).decisions > 0),
            *final(self) == (Round { recorded: old(self).recorded || write, ..*old(self) }),
    {
        if self.recorded || self.decisions == 0 {
            return false;
        }
        self.recorded = true;
        true
    }

    /// The next round, nothing played yet.
    pub fn next(&self) -> (r: Self)
        requires
            self.number < u32::MAX,
        ensures
            r == (Round { number: (self.number + 1) as u32, decisions: 0, interventions: 0, recorded: false }),
    {
        Round::new(self.number + 1)
    }
}

/// How a round ends after a move: the death the move caused, or a full board (no food left on a
/// safe move), or not at all.
pub open spec fn end_after_move_spec(death: Option<RoundEnd>, food_left: bool) -> Option<RoundEnd> {
    match death {
        Some(d) => Some(d),
        None => if food_left { None } else { Some(RoundEnd::BoardFull) },
    }
}

pub fn end_after_move(death: Option<RoundEnd>, food_left: bool) -> (r: Option<RoundEnd>)
    ensures
        r == end_after_move_spec(death, food_left),
{
    match death {
        Some(d) => Some(d),
        None => if food_left { None } else { Some(RoundEnd::BoardFull) },
    }
}

/// The history `h` with `item` added at the end, keeping at most `cap` items: the oldest goes
/// when the history is full.
pub open spec fn bounded_push<T>(h: Seq<T>, item: T, cap: int) -> Seq<T> {
    if h.len() >= cap {
        h.subrange(h.len() - cap + 1, h.len() as int).push(item)
    } else {
        h.push(item)
    }
}

/// Adds `item` to a history that keeps at most `cap` items, dropping the oldest when it is full.
pub fn push_bounded<T>(h: &mut VecDeque<T>, item: T, cap: usize)
    requires
        cap > 0,
        old(h)@.len() <= cap,
    ensures
        final(h)@ == bounded_push(old(h)@, item, cap as int),
        final(h)@.len() <= cap,
        final(h)@.last() == item,
{
    if h.len() == cap {
        let _ = h.pop_front();
    }
    h.push_back(item);
    proof {
        if old(h)@.len() >= cap {
            assert(old(h)@.drop_first() =~= old(h)@.subrange(old(h)@.len() - cap + 1, old(h)@.len() as int));
        }
    }
}

/// What the UI prints about the model backend.
#[derive(Clone, Debug)]
pub struct BrainInfo {
    pub checkpoint: String,
    pub engine: String,
    pub device: String,
}

/// `--mock` runs never read or write the saved best scores: they are not the model's.
pub fn is_mock(info: &BrainInfo) -> (r: bool)
    ensures
        r == (info.checkpoint@ == "mock"@),
{
    text_is(info.checkpoint.as_str(), "mock")
}

/// What the UI shows for the heuristic stand-in that `--mock` runs instead of the model.
pub fn info() -> (i: BrainInfo)
    ensures
        i.checkpoint@ == "mock"@,
        i.engine@ == "MOCK heuristic (no model)"@,
        i.device@ == "CPU"@,
{
    BrainInfo {
        checkpoint: text_of("mock"),
        engine: text_of("MOCK heuristic (no model)"),
        device: text_of("CPU"),
    }
}

/// The key under which the best score of a `width` x `height` board is stored: `"<width>x<height>"`.
pub fn score_key(width: usize, height: usize) -> (k: String)
    ensures
        k@ == decimal(width as int) + "x"@ + decimal(height as int),
{
    let mut k = String::new();
    push_digits(&mut k, width as u64);
    push_text(&mut k, "x");
    push_digits(&mut k, height as u64);
    k
}

/// The integer part of a finished round's history row: its number, the board, the score and
/// length it reached, its decisions and shield overrides, and why it ended.
#[derive(Clone, Copy, Debug, PartialEq, Eq, Structural)]
pub struct RoundRow {
    pub round: u32,
    pub width: usize,
    pub height: usize,
    pub score: u32,
    pub length: usize,
    pub decisions: u32,
    pub interventions: u32,
    pub cause: RoundEnd,
}

/// The row round `r` gets when it ends with `cause` in position `game`.
pub open spec fn row_of(r: Round, game: SnakeGame, cause: RoundEnd) -> RoundRow {
    RoundRow {
        round: r.number,
        width: game.width,
        height: game.height,
        score: game.score,
        length: game.snake@.len() as usize,
        decisions: r.decisions,
        interventions: r.interventions,
        cause,
    }
}

/// Writes the round into the history, once: a round with no moves gets no row, and a round that
/// has its row gets no second one. The row (with `extra`, what the caller keeps beside it) goes
/// last, and the history keeps the latest `ROUND_HISTORY` rows. Returns whether a row was written.
pub fn finish_round<T>(round: &mut Round, rounds: &mut VecDeque<(RoundRow, T)>, game: &SnakeGame, cause: RoundEnd, extra: T) -> (written: bool)
    requires
        old(rounds)@.len() <= ROUND_HISTORY,
    ensures
        written == (!old(round).recorded && old(round).decisions > 0),
        *final(round) == (Round { recorded: old(round).recorded || written, ..*old(round) }),
        written ==> final(rounds)@ == bounded_push(old(rounds)@, (row_of(*old(round), *game, cause), extra), ROUND_HISTORY as int),
        !written ==> final(rounds)@ == old(rounds)@,
        final(rounds)@.len() <= ROUND_HISTORY,
        !(!final(round).recorded && final(round).decisions > 0),
{
    let r = *round;
    if !round.finish() {
        return false;
    }
    let row = RoundRow {
        round: r.number,
        width: game.width,
        height: game.height,
        score: game.score,
        length: game.snake.len(),
        decisions: r.decisions,
        interventions: r.interventions,
        cause,
    };
    push_bounded(rounds, (row, extra), ROUND_HISTORY);
    true
}

} // verus!
