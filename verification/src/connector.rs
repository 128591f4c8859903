use vstd::prelude::*;
use crate::carver::{is_walk, lemma_walk_push, walk_origin};
use crate::geometry::{moved, step, CardinalDirection};
use crate::grid::{
    lemma_carve_all_grows, lemma_carve_all_push, lemma_carve_grows, Cell, Grid, GridView,
};
use crate::random::RandomStream;
use crate::route::{lemma_reachable_survives, reachable};
use crate::settings::GenerationError;

verus! {

/// The horizontal and the vertical direction that a tunnel at `at` prefers on its way to
/// `target`: right and up where the target lies further that way, left and down otherwise.
pub open spec fn preferred(at: (usize, usize), target: (usize, usize)) -> (
    CardinalDirection,
    CardinalDirection,
) {
    (
        if target.0 > at.0 {
            CardinalDirection::Right
        } else {
            CardinalDirection::Left
        },
        if target.1 > at.1 {
            CardinalDirection::Up
        } else {
            CardinalDirection::Down
        },
    )
}

/// The two directions that a tunnel at `at` prefers on its way to `target`.
pub fn preferred_directions(at: (usize, usize), target: (usize, usize)) -> (r: (
    CardinalDirection,
    CardinalDirection,
))
    ensures
        r == preferred(at, target),
{
    (
        if target.0 > at.0 {
            CardinalDirection::Right
        } else {
            CardinalDirection::Left
        },
        if target.1 > at.1 {
            CardinalDirection::Up
        } else {
            CardinalDirection::Down
        },
    )
}

/// A drawn direction is kept when it is one of the two preferred ones or when no reroll is
/// left.
pub open spec fn keeps(
    draw: CardinalDirection,
    wanted: (CardinalDirection, CardinalDirection),
    rerolls: usize,
) -> bool {
    draw == wanted.0 || draw == wanted.1 || rerolls == 0
}

/// Whether a drawn direction is kept rather than drawn again.
pub fn keeps_draw(
    draw: CardinalDirection,
    wanted: (CardinalDirection, CardinalDirection),
    rerolls: usize,
) -> (b: bool)
    ensures
        b == keeps(draw, wanted, rerolls),
{
    draw == wanted.0 || draw == wanted.1 || rerolls == 0
}

/// The direction that comes of drawing from `rng` until a draw is kept, with `rerolls`
/// rerolls to spend, and the stream after the last draw.
pub open spec fn biased(
    rng: RandomStream,
    wanted: (CardinalDirection, CardinalDirection),
    rerolls: usize,
) -> (CardinalDirection, RandomStream)
    decreases rerolls,
{
    let draw = rng.peek_direction();
    if keeps(draw, wanted, rerolls) {
        (draw, rng.advanced())
    } else {
        biased(rng.advanced(), wanted, (rerolls - 1) as usize)
    }
}

/// Draws a direction, and draws again up to `rerolls` times while the draw is not one of
/// the preferred directions.
pub fn biased_direction(
    rng: &mut RandomStream,
    wanted: (CardinalDirection, CardinalDirection),
    rerolls: usize,
) -> (d: CardinalDirection)
    ensures
        d == biased(*old(rng), wanted, rerolls).0,
        *final(rng) == biased(*old(rng), wanted, rerolls).1,
{
    let mut left: usize = rerolls;
    loop
        invariant
            biased(*old(rng), wanted, rerolls) == biased(*rng, wanted, left),
        decreases left,
    {
        let draw = rng.next_direction();
        if keeps_draw(draw, wanted, left) {
            return draw;
        }
        left = left - 1;
    }
}

/// How a tunnel goes on that has taken `i` steps and stands at `at`: the cells it carves
/// from here, whether it arrives, and the stream after its last draw. It arrives when,
/// after the first step or after a 128th step from there, a route leads from `start` to
/// `target`; it gives up after `max_steps` steps.
pub open spec fn tunnelled(
    g: GridView,
    start: (usize, usize),
    target: (usize, usize),
    at: (usize, usize),
    i: usize,
    max_steps: usize,
    region: usize,
    rng: RandomStream,
) -> (Seq<(usize, usize)>, bool, RandomStream)
    decreases max_steps - i,
{
    if i >= max_steps {
        (Seq::empty(), false, rng)
    } else {
        let choice = biased(rng, preferred(at, target), (i % 2) as usize);
        let next = moved(at, choice.0, g.width, g.height);
        let carved = g.carve(next, region);
        if i % 128 == 0 && reachable(carved, start, target) {
            (seq![next], true, choice.1)
        } else {
            let rest = tunnelled(
                carved,
                start,
                target,
                next,
                (i + 1) as usize,
                max_steps,
                region,
                choice.1,
            );
            (seq![next] + rest.0, rest.1, rest.2)
        }
    }
}

impl Grid {
    /// Carves a tunnel from `start` by a walk that leans towards `target`: at every second
    /// step a draw that is not a preferred direction is drawn once more. After the first
    /// step and after every 128th step from there it searches for a route from `start` to
    /// `target` and stops as soon as there is one. Gives up after `max_steps` steps.
    /// Returns the cells carved, in order.
    pub fn generate_connecting_tunnel(
        &mut self,
        start: (usize, usize),
        target: (usize, usize),
        region: usize,
        rng: &mut RandomStream,
        max_steps: usize,
    ) -> (r: Result<Vec<(usize, usize)>, GenerationError>)
        requires
            old(self)@.wf(),
        ensures
            ({
                let run = tunnelled(
                    old(self)@,
                    start,
                    target,
                    start,
                    0,
                    max_steps,
                    region,
                    *old(rng),
                );
                &&& final(self)@ == old(self)@.carve_all(run.0, region)
                &&& *final(rng) == run.2
                &&& r is Ok <==> run.1
                &&& r matches Ok(path) ==> path@ == run.0
            }),
            final(self)@.wf(),
            old(self)@.grows_to(final(self)@),
            match r {
                Ok(path) => {
                    &&& 1 <= path@.len() <= max_steps
                    &&& (path@.len() - 1) % 128 == 0
                    &&& is_walk(start, path@, old(self)@.width, old(self)@.height)
                    &&& reachable(final(self)@, start, target)
                },
                Err(e) => e == (GenerationError::ConnectionFailed { from: start, to: target }),
            },
            max_steps == 0 ==> r is Err,
            max_steps > 0 && reachable(old(self)@, start, target) ==> r is Ok,
    {
        let width = self.width();
        let height = self.height();
        let ghost g = self@;
        let ghost whole = tunnelled(g, start, target, start, 0, max_steps, region, *rng);
        let mut at = start;
        let mut path: Vec<(usize, usize)> = Vec::new();
        let mut i: usize = 0;
        proof {
            assert(path@ + whole.0 =~= whole.0);
        }
        while i < max_steps
            invariant
                i <= max_steps,
                path@.len() == i,
                g == old(self)@,
                g.wf(),
                width == g.width,
                height == g.height,
                at == walk_origin(start, path@, i as int),
                is_walk(start, path@, g.width, g.height),
                self@ == g.carve_all(path@, region),
                self@.wf(),
                g.grows_to(self@),
                i > 0 ==> !reachable(g, start, target),
                whole == tunnelled(g, start, target, start, 0, max_steps, region, *old(rng)),
                whole.0 == path@ + tunnelled(
                    self@,
                    start,
                    target,
                    at,
                    i,
                    max_steps,
                    region,
                    *rng,
                ).0,
                whole.1 == tunnelled(self@, start, target, at, i, max_steps, region, *rng).1,
                whole.2 == tunnelled(self@, start, target, at, i, max_steps, region, *rng).2,
            decreases max_steps - i,
        {
            let ghost rest = tunnelled(self@, start, target, at, i, max_steps, region, *rng);
            let ghost before = self@;
            let wanted = preferred_directions(at, target);
            let d = biased_direction(rng, wanted, i % 2);
            let next = step(at, d, width, height);
            proof {
                lemma_walk_push(start, path@, next, g.width, g.height);
                lemma_carve_all_push(g, path@, next, region);
                lemma_carve_grows(self@, next, region);
            }
            at = next;
            path.push(at);
            self.set(at.0, at.1, Cell { open: true, region: Some(region) });
            proof {
                lemma_carve_all_grows(g, path@, region);
                assert(self@ == before.carve(next, region));
            }
            if i % 128 == 0 {
                let found = self.get_path(start, target);
                if found.is_some() {
                    proof {
                        assert(rest.0 == seq![next]);
                        assert(path@ =~= whole.0);
                    }
                    return Ok(path);
                }
                proof {
                    if reachable(g, start, target) {
                        lemma_reachable_survives(g, self@, start, target);
                    }
                }
            }
            proof {
                let tail = tunnelled(
                    self@,
                    start,
                    target,
                    next,
                    (i + 1) as usize,
                    max_steps,
                    region,
                    *rng,
                );
                assert(rest.0 == seq![next] + tail.0);
                assert(whole.0 =~= path@ + tail.0);
            }
            i = i + 1;
        }
        proof {
            assert(whole.0 =~= path@);
        }
        Err(GenerationError::ConnectionFailed { from: start, to: target })
    }
}

} // verus!
