//! Random numbers for rock layouts, food placement and the order of the model's option keys: from
//! the thread-local generator, or from a seeded one where play has to repeat exactly.

use vstd::prelude::*;
use rand::seq::SliceRandom;
use crate::grid::Dir;

verus! {

/// A random number in `0..n`, drawn with `rand::Rng::random_range` from the thread-local generator
/// `rand::rng()`. The number depends on chance: all that is claimed of it is that it lies in the
/// range (`random_range` panics on an empty range, hence `n > 0`).
#[verifier::external_body]
pub(crate) fn random_below(n: usize) -> (r: usize)
    requires
        n > 0,
    ensures
        r < n,
{
    rand::Rng::random_range(&mut rand::rng(), 0..n)
}

/// Puts the four directions of `order` in a random order with `rand::seq::SliceRandom::shuffle`
/// and the thread-local generator `rand::rng()`. Which order comes out depends on chance: all that
/// is claimed is that the same directions come out, each as often as it went in.
#[verifier::external_body]
pub(crate) fn shuffle_dirs(order: &mut [Dir; 4])
    ensures
        final(order)@.to_multiset() == old(order)@.to_multiset(),
{
    order.shuffle(&mut rand::rng())
}

/// The multiplier and increment of the seeded generator's linear congruential sequence.
pub const LCG_MUL: u64 = 6364136223846793005;

pub const LCG_ADD: u64 = 1442695040888963407;

/// A reproducible stream of pseudo-random numbers.
pub struct Lcg {
    pub state: u64,
}

pub open spec fn lcg_step(s: u64) -> u64 {
    s.wrapping_mul(LCG_MUL).wrapping_add(LCG_ADD)
}

impl Lcg {
    /// The next number: the state advanced one step, its top 31 bits.
    pub fn next(&mut self) -> (r: u64)
        ensures
            final(self).state == lcg_step(old(self).state),
            r == final(self).state >> 33,
    {
        self.state = self.state.wrapping_mul(LCG_MUL).wrapping_add(LCG_ADD);
        self.state >> 33
    }
}

/// Where a game's random draws come from: the thread-local generator, or the seeded
/// generator in the given state (for play that can be repeated exactly).
#[derive(Clone, Copy, Debug, PartialEq, Eq, Structural)]
pub enum Dice {
    Thread,
    Seeded(u64),
}

/// A draw from `0..n` by the seeded generator in state `s`: the next number modulo `n`, and the
/// state after.
pub open spec fn seeded_draw(s: u64, n: int) -> (int, u64) {
    let t = lcg_step(s);
    (((t >> 33) as int) % n, t)
}

impl Dice {
    /// A number in `0..n`; the seeded generator's is `seeded_draw`.
    pub fn below(&mut self, n: usize) -> (r: usize)
        requires
            n > 0,
        ensures
            r < n,
            match *old(self) {
                Dice::Seeded(s) => r == seeded_draw(s, n as int).0 && *final(self) == Dice::Seeded(seeded_draw(s, n as int).1),
                Dice::Thread => *final(self) == Dice::Thread,
            },
    {
        match *self {
            Dice::Thread => random_below(n),
            Dice::Seeded(s) => {
                let mut g = Lcg { state: s };
                let x = g.next();
                *self = Dice::Seeded(g.state);
                (x % (n as u64)) as usize
            },
        }
    }
}

} // verus!
