//! When the running game asks the model about a position, which answers it takes, and when the
//! next move may run. Time is counted in milliseconds from any fixed start.

use vstd::prelude::*;

verus! {

/// How long the game waits before asking again after the model failed.
pub const ERROR_BACKOFF_MS: u64 = 1000;

/// How long a finished game stays on the dashboard before the next round starts by itself.
pub const RESTART_AFTER_MS: u64 = 2500;

#[derive(Clone, Copy, Debug, PartialEq, Eq, Structural)]
pub struct Pacer {
    /// Bumped whenever the position is replaced; answers carry the generation they were asked in.
    pub generation: u64,
    /// A request for the current position is running (or queued).
    pub awaiting_result: bool,
    /// The model has answered and the move waits for the pacing delay.
    pub pending: bool,
    /// Earliest time the next move may run.
    pub ready_at: u64,
    /// Earliest time to send a request (pushed out after a model error).
    pub dispatch_not_before: u64,
}

/// How an answer from the model was taken.
#[derive(Clone, Copy, Debug, PartialEq, Eq, Structural)]
pub enum Answer {
    /// For an older position: dropped.
    Stale,
    /// A decision for the current position: the move waits for its turn.
    Accepted,
    /// The model failed on the current position: asking again waits a moment.
    Failed,
}

/// The pacer after a request goes out, and whether one does: only when nothing is asked or
/// waiting, the game goes on, and the back-off after an error is over.
pub open spec fn dispatch_spec(p: Pacer, game_over: bool, now: u64) -> (Pacer, bool) {
    if p.awaiting_result || p.pending || game_over || now < p.dispatch_not_before {
        (p, false)
    } else {
        (Pacer { awaiting_result: true, ..p }, true)
    }
}

/// The pacer after an answer asked in `generation` arrives at `now`.
pub open spec fn answer_spec(p: Pacer, generation: u64, ok: bool, now: u64) -> (Pacer, Answer) {
    if generation != p.generation {
        (p, Answer::Stale)
    } else if ok {
        (Pacer { awaiting_result: false, pending: true, ..p }, Answer::Accepted)
    } else {
        (Pacer { awaiting_result: false, dispatch_not_before: (now + ERROR_BACKOFF_MS) as u64, ..p }, Answer::Failed)
    }
}

/// The pacer after the waiting move runs at `now`, with `delay` before the next one.
pub open spec fn moved_spec(p: Pacer, now: u64, delay: u64) -> Pacer {
    Pacer { pending: false, ready_at: (now + delay) as u64, ..p }
}

/// The pacer for a new position at `now`: nothing asked, nothing waiting, and every answer to an
/// earlier request stale.
pub open spec fn reset_spec(p: Pacer, now: u64) -> Pacer {
    Pacer {
        generation: (p.generation + 1) as u64,
        awaiting_result: false,
        pending: false,
        ready_at: now,
        dispatch_not_before: now,
    }
}

impl Pacer {
    /// A waiting move never has a request beside it.
    pub open spec fn wf(self) -> bool {
        self.pending ==> !self.awaiting_result
    }

    /// A fresh game at `now`.
    pub fn new(now: u64) -> (p: Self)
        ensures
            p == (Pacer { generation: 0, awaiting_result: false, pending: false, ready_at: now, dispatch_not_before: now }),
            p.wf(),
    {
        Pacer { generation: 0, awaiting_result: false, pending: false, ready_at: now, dispatch_not_before: now }
    }

    /// Ask the model about the current position if nothing is in flight; true when the caller
    /// must send the request (tagged with `generation`). The request goes out as soon as the
    /// position exists, so model time overlaps the pacing delay instead of adding to it.
    pub fn dispatch_if_idle(&mut self, game_over: bool, now: u64) -> (sent: bool)
        requires
            old(self).wf(),
        ensures
            (*final(self), sent) == dispatch_spec(*old(self), game_over, now),
            final(self).wf(),
    {
        if self.awaiting_result || self.pending || game_over || now < self.dispatch_not_before {
            return false;
        }
        self.awaiting_result = true;
        true
    }

    /// Whether an answer is looked for: not while a move already waits.
    pub fn wants_answer(&self) -> (r: bool)
        ensures
            r == !self.pending,
    {
        !self.pending
    }

    /// Take an answer asked in `generation` (`ok` when it is a decision, not an error) at `now`.
    pub fn take_answer(&mut self, generation: u64, ok: bool, now: u64) -> (a: Answer)
        requires
            old(self).wf(),
            generation == old(self).generation && !ok ==> now + ERROR_BACKOFF_MS <= u64::MAX,
        ensures
            (*final(self), a) == answer_spec(*old(self), generation, ok, now),
            final(self).wf(),
    {
        if generation != self.generation {
            return Answer::Stale;
        }
        self.awaiting_result = false;
        if ok {
            self.pending = true;
            Answer::Accepted
        } else {
            self.dispatch_not_before = now + ERROR_BACKOFF_MS;
            Answer::Failed
        }
    }

    /// A move waits and its time has come.
    pub fn move_due(&self, now: u64) -> (r: bool)
        ensures
            r == (self.pending && now >= self.ready_at),
    {
        self.pending && now >= self.ready_at
    }

    /// The waiting move ran at `now`; the next may run `delay` later.
    pub fn moved(&mut self, now: u64, delay: u64)
        requires
            old(self).wf(),
            now + delay <= u64::MAX,
        ensures
            *final(self) == moved_spec(*old(self), now, delay),
            final(self).wf(),
    {
        self.pending = false;
        self.ready_at = now + delay;
    }

    /// A new position at `now` (a reset or a new board).
    pub fn reset(&mut self, now: u64)
        requires
            old(self).generation < u64::MAX,
        ensures
            *final(self) == reset_spec(*old(self), now),
            final(self).wf(),
    {
        self.generation = self.generation + 1;
        self.awaiting_result = false;
        self.pending = false;
        self.ready_at = now;
        self.dispatch_not_before = now;
    }
}

/// The dashboard starts the next round by itself when auto-restart is on, the game is not
/// paused, and the finished game has been on screen long enough.
pub fn restart_due(auto_restart: bool, paused: bool, over_since: u64, now: u64) -> (r: bool)
    ensures
        r == (auto_restart && !paused && now >= over_since && now - over_since >= RESTART_AFTER_MS),
{
    auto_restart && !paused && now >= over_since && now - over_since >= RESTART_AFTER_MS
}

/// How often the screen is redrawn while the model thinks (its timer moves).
pub const THINK_REDRAW_MS: u64 = 100;

/// How often the screen is redrawn anyway (the clock in the corner).
pub const CLOCK_REDRAW_MS: u64 = 1000;

/// The terminal redraws only when something changed: on the first frame, after a visible change,
/// every 100 ms while the model thinks, and once a second for the clock.
pub fn redraw_due(first: bool, dirty: bool, thinking: bool, since_draw_ms: u64) -> (r: bool)
    ensures
        r == (first || dirty || (thinking && since_draw_ms >= THINK_REDRAW_MS) || since_draw_ms >= CLOCK_REDRAW_MS),
{
    first || dirty || (thinking && since_draw_ms >= THINK_REDRAW_MS) || since_draw_ms >= CLOCK_REDRAW_MS
}

/// The dashboard's event stream sends the state when it changed, and otherwise every 100 ms
/// while the model thinks and every 250 ms when it does not, so its timers keep moving.
pub fn state_update_due(changed: bool, thinking: bool, since_sent_ms: u64) -> (r: bool)
    ensures
        r == (changed || since_sent_ms >= (if thinking { 100u64 } else { 250u64 })),
{
    changed || since_sent_ms >= if thinking { 100u64 } else { 250u64 }
}

/// An answer asked before the position was replaced never moves the new position: whatever
/// it says, it is dropped and the pacer stays as it was.
pub proof fn lemma_stale_answers_ignored(p: Pacer, now: u64, asked: u64, ok: bool, later: u64)
    requires
        asked <= p.generation,
        p.generation < u64::MAX,
    ensures
        answer_spec(reset_spec(p, now), asked, ok, later) == (reset_spec(p, now), Answer::Stale),
{
}

/// A reset never leaves the game waiting for an answer that will not come: the next tick of a
/// running game at or after the reset sends a request for the new position.
pub proof fn lemma_reset_then_dispatch(p: Pacer, now: u64, later: u64)
    requires
        p.generation < u64::MAX,
        later >= now,
    ensures
        dispatch_spec(reset_spec(p, now), false, later) == (Pacer { awaiting_result: true, ..reset_spec(p, now) }, true),
{
}

/// At most one request is in flight: while one is out (or a move waits), no other is sent.
pub proof fn lemma_one_request_in_flight(p: Pacer, game_over: bool, now: u64)
    requires
        p.awaiting_result || p.pending,
    ensures
        dispatch_spec(p, game_over, now) == (p, false),
{
}

/// Model time overlaps the pacing delay: right after a move runs, the request for the next
/// position goes out, before the delay has passed; that next move runs no earlier than `delay`
/// after this one.
pub proof fn lemma_request_overlaps_delay(p: Pacer, now: u64, delay: u64)
    requires
        p.wf(),
        p.pending,
        now >= p.dispatch_not_before,
        now + delay <= u64::MAX,
    ensures
        dispatch_spec(moved_spec(p, now, delay), false, now).1,
        moved_spec(p, now, delay).ready_at == now + delay,
{
}

/// Only a decision for the current position lines a move up: an answer leaves a move waiting
/// only when it was asked in the current generation and is not an error.
pub proof fn lemma_only_current_answers_move(p: Pacer, generation: u64, ok: bool, now: u64)
    requires
        !p.pending,
    ensures
        answer_spec(p, generation, ok, now).0.pending ==> generation == p.generation && ok,
{
}

} // verus!
