use vstd::prelude::*;
use rand::rngs::StdRng;
use rand::Rng;
use rand::SeedableRng;
use crate::geometry::CardinalDirection;

verus! {

/// The number below `bound` that stands at `position` in the stream of `seed`.
pub uninterp spec fn drawn(seed: u64, position: u64, bound: usize) -> usize;

/// `StdRng::from_seed` on the key made of `seed` and `position`, then `Rng::gen_range` on
/// `0..bound`: the first number of the generator keyed that way. A generator gives the same
/// numbers whenever it is made from the same key, so the result is a function of the three
/// arguments; it lies below `bound`, which must be positive because an empty range is
/// refused.
#[verifier::external_body]
fn draw_at(seed: u64, position: u64, bound: usize) -> (r: usize)
    requires
        bound > 0,
    ensures
        r == drawn(seed, position, bound),
        r < bound,
{
    let mut key = [0u8; 32];
    key[..8].copy_from_slice(&seed.to_le_bytes());
    key[8..16].copy_from_slice(&position.to_le_bytes());
    StdRng::from_seed(key).gen_range(0..bound as u64) as usize
}

/// A reproducible source of random numbers: the stream that belongs to `seed`, read at
/// `position`. Every draw reads one number and moves one position on.
#[derive(Clone, Copy, Debug, PartialEq, Eq)]
pub struct RandomStream {
    pub seed: u64,
    pub position: u64,
}

impl RandomStream {
    /// The number below `bound` that the next draw gives.
    pub open spec fn peek(self, bound: usize) -> usize {
        drawn(self.seed, self.position, bound)
    }

    /// The stream after one draw. After the last position it starts over.
    pub open spec fn advanced(self) -> RandomStream {
        RandomStream {
            seed: self.seed,
            position: if self.position == u64::MAX {
                0
            } else {
                (self.position + 1) as u64
            },
        }
    }

    /// The direction that the next draw gives.
    pub open spec fn peek_direction(self) -> CardinalDirection {
        CardinalDirection::of_index(self.peek(4))
    }

    /// The stream of `seed` at its beginning.
    pub fn new(seed: u64) -> (s: RandomStream)
        ensures
            s == (RandomStream { seed, position: 0 }),
    {
        RandomStream { seed, position: 0 }
    }

    /// Draws a number below `bound`.
    pub fn next_below(&mut self, bound: usize) -> (r: usize)
        requires
            bound > 0,
        ensures
            r == old(self).peek(bound),
            r < bound,
            *final(self) == old(self).advanced(),
    {
        let r = draw_at(self.seed, self.position, bound);
        self.position = if self.position == u64::MAX {
            0
        } else {
            self.position + 1
        };
        r
    }

    /// Draws one of the four directions.
    pub fn next_direction(&mut self) -> (d: CardinalDirection)
        ensures
            d == old(self).peek_direction(),
            *final(self) == old(self).advanced(),
    {
        CardinalDirection::from_index(self.next_below(4))
    }
}

} // verus!
