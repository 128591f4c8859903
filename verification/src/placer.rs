use vstd::prelude::*;
use crate::geometry::{chebyshev, distance};
use crate::grid::{Grid, GridView};
use crate::random::RandomStream;
use crate::settings::GenerationError;

verus! {

/// The middle of the grid, where the first cavern stands.
pub open spec fn centre(g: GridView) -> (usize, usize) {
    ((g.width / 2) as usize, (g.height / 2) as usize)
}

/// `p` lies closer than `max_dist` to one of `caverns`.
pub open spec fn near_any(caverns: Seq<(usize, usize)>, p: (usize, usize), max_dist: usize) -> bool {
    exists|j: int| 0 <= j < caverns.len() && #[trigger] chebyshev(caverns[j], p) < max_dist
}

/// The `i`-th cavern lies in the grid and, unless it is the first, closer than `max_dist`
/// to a cavern placed before it.
pub open spec fn placed_at(
    g: GridView,
    caverns: Seq<(usize, usize)>,
    max_dist: usize,
    i: int,
) -> bool {
    &&& g.in_bounds(caverns[i])
    &&& i >= 1 ==> near_any(caverns.take(i), caverns[i], max_dist)
}

/// The caverns start with the centre of the grid, and each later one was placed close to
/// an earlier one.
pub open spec fn placement_ok(g: GridView, caverns: Seq<(usize, usize)>, max_dist: usize) -> bool {
    &&& caverns.len() >= 1
    &&& caverns[0] == centre(g)
    &&& forall|i: int| 0 <= i < caverns.len() ==> #[trigger] placed_at(g, caverns, max_dist, i)
}

/// The position that the next two draws give: a column, then a row.
pub open spec fn drawn_position(g: GridView, rng: RandomStream) -> (usize, usize) {
    (rng.peek(g.width as usize), rng.advanced().peek(g.height as usize))
}

/// How a placement that stands at `caverns` goes on with `attempts` positions left to draw:
/// the caverns placed in the end, or `None` where the attempts run out first, and the stream
/// after the last draw.
pub open spec fn placed(
    g: GridView,
    caverns: Seq<(usize, usize)>,
    count: usize,
    max_dist: usize,
    attempts: nat,
    rng: RandomStream,
) -> (Option<Seq<(usize, usize)>>, RandomStream)
    decreases attempts,
{
    if caverns.len() >= count {
        (Some(caverns), rng)
    } else if attempts == 0 {
        (None, rng)
    } else {
        let p = drawn_position(g, rng);
        placed(
            g,
            if near_any(caverns, p, max_dist) {
                caverns.push(p)
            } else {
                caverns
            },
            count,
            max_dist,
            (attempts - 1) as nat,
            rng.advanced().advanced(),
        )
    }
}

/// Whether `p` lies closer than `max_dist` to one of `caverns`.
pub fn is_near_any(caverns: &Vec<(usize, usize)>, p: (usize, usize), max_dist: usize) -> (b: bool)
    ensures
        b == near_any(caverns@, p, max_dist),
{
    let mut j: usize = 0;
    while j < caverns.len()
        invariant
            j <= caverns@.len(),
            forall|m: int| 0 <= m < j ==> #[trigger] chebyshev(caverns@[m], p) >= max_dist,
        decreases caverns@.len() - j,
    {
        if distance(caverns[j], p) < max_dist {
            return true;
        }
        j = j + 1;
    }
    false
}

impl Grid {
    /// Places caverns: the first at the centre of the grid, each later one at a drawn
    /// position that is kept only if it lies closer than `max_dist` to a cavern placed
    /// before. Gives up once `max_attempts` positions have been drawn and more are needed.
    pub fn place_caverns(
        &self,
        count: usize,
        max_dist: usize,
        rng: &mut RandomStream,
        max_attempts: usize,
    ) -> (r: Result<Vec<(usize, usize)>, GenerationError>)
        requires
            self@.wf(),
        ensures
            *final(rng) == placed(
                self@,
                seq![centre(self@)],
                count,
                max_dist,
                max_attempts as nat,
                *old(rng),
            ).1,
            match r {
                Ok(caverns) => {
                    &&& Some(caverns@) == placed(
                        self@,
                        seq![centre(self@)],
                        count,
                        max_dist,
                        max_attempts as nat,
                        *old(rng),
                    ).0
                    &&& caverns@.len() == (if count == 0 {
                        1
                    } else {
                        count as int
                    })
                    &&& caverns@.len() - 1 <= max_attempts
                    &&& placement_ok(self@, caverns@, max_dist)
                },
                Err(e) => {
                    &&& e == GenerationError::PlacementTimeout
                    &&& count > 1
                    &&& placed(
                        self@,
                        seq![centre(self@)],
                        count,
                        max_dist,
                        max_attempts as nat,
                        *old(rng),
                    ).0 is None
                },
            },
            count <= 1 ==> r is Ok,
            count > 1 && max_dist == 0 ==> r is Err,
            max_dist > self@.width && max_dist > self@.height && count - 1 <= max_attempts ==> r
                is Ok,
    {
        let width = self.width();
        let height = self.height();
        let mut caverns: Vec<(usize, usize)> = Vec::new();
        caverns.push((width / 2, height / 2));
        let mut attempts: usize = 0;
        let ghost whole = placed(
            self@,
            seq![centre(self@)],
            count,
            max_dist,
            max_attempts as nat,
            *rng,
        );
        proof {
            assert(caverns@ =~= seq![centre(self@)]);
            assert(placed_at(self@, caverns@, max_dist, 0));
        }
        while caverns.len() < count
            invariant
                self@.wf(),
                width == self@.width,
                height == self@.height,
                attempts <= max_attempts,
                1 <= caverns@.len() <= attempts + 1,
                caverns@.len() <= count || caverns@.len() == 1,
                placement_ok(self@, caverns@, max_dist),
                max_dist == 0 ==> caverns@.len() == 1,
                max_dist > self@.width && max_dist > self@.height ==> caverns@.len() == attempts
                    + 1,
                whole == placed(
                    self@,
                    seq![centre(self@)],
                    count,
                    max_dist,
                    max_attempts as nat,
                    *old(rng),
                ),
                whole == placed(
                    self@,
                    caverns@,
                    count,
                    max_dist,
                    (max_attempts - attempts) as nat,
                    *rng,
                ),
            decreases max_attempts - attempts,
        {
            if attempts >= max_attempts {
                proof {
                    assert(placed(self@, caverns@, count, max_dist, 0, *rng) == (
                        None::<Seq<(usize, usize)>>,
                        *rng,
                    ));
                }
                return Err(GenerationError::PlacementTimeout);
            }
            attempts = attempts + 1;
            let x = rng.next_below(width);
            let y = rng.next_below(height);
            let ghost before = caverns@;
            proof {
                if max_dist > self@.width && max_dist > self@.height {
                    assert(chebyshev(before[0], (x, y)) < max_dist);
                }
            }
            if is_near_any(&caverns, (x, y), max_dist) {
                caverns.push((x, y));
                proof {
                    assert(caverns@.take(before.len() as int) =~= before);
                    assert forall|i: int| 0 <= i < caverns@.len() implies #[trigger] placed_at(
                        self@,
                        caverns@,
                        max_dist,
                        i,
                    ) by {
                        if i < before.len() {
                            assert(placed_at(self@, before, max_dist, i));
                            assert(caverns@.take(i) =~= before.take(i));
                        }
                    }
                }
            }
        }
        Ok(caverns)
    }
}

} // verus!
