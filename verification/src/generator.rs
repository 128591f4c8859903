use vstd::prelude::*;
use crate::geometry::{chebyshev, distance};
use crate::grid::{lemma_grows_transitive, lemma_open_survives, Grid, GridView};
use crate::carver::walked;
use crate::connector::tunnelled;
use crate::placer::{centre, placed, placed_at, placement_ok};
use crate::random::RandomStream;
use crate::route::{
    lemma_reachable_self, lemma_reachable_survives, lemma_reachable_symmetric,
    lemma_reachable_transitive, reachable,
};
use crate::settings::{GenerationError, GenerationLimits, GenerationSettings};

verus! {

/// Every cavern is a carved cell of the grid.
pub open spec fn caverns_open(g: GridView, caverns: Seq<(usize, usize)>) -> bool {
    forall|k: int| 0 <= k < caverns.len() ==> g.is_open(#[trigger] caverns[k])
}

/// The `t`-th cavern comes before the `j`-th in the choice of a tunnel's far end from the
/// `i`-th: it is nearer, or as near and earlier in the list.
pub open spec fn nearer(caverns: Seq<(usize, usize)>, i: int, t: int, j: int) -> bool {
    chebyshev(caverns[i], caverns[t]) < chebyshev(caverns[i], caverns[j]) || (chebyshev(
        caverns[i],
        caverns[t],
    ) == chebyshev(caverns[i], caverns[j]) && t <= j)
}

/// The `j`-th cavern cannot be reached from the `i`-th.
pub open spec fn cut_off(g: GridView, caverns: Seq<(usize, usize)>, i: int, j: int) -> bool {
    !reachable(g, caverns[i], caverns[j])
}

/// The `t`-th cavern is the far end of a tunnel from the `i`-th: it cannot be reached from
/// there, and it comes before every other cavern that cannot.
pub open spec fn is_far_end(g: GridView, caverns: Seq<(usize, usize)>, i: int, t: int) -> bool {
    &&& 0 <= t < caverns.len()
    &&& cut_off(g, caverns, i, t)
    &&& forall|j: int|
        0 <= j < caverns.len() && #[trigger] cut_off(g, caverns, i, j) ==> nearer(caverns, i, t, j)
}

/// The far end of a tunnel from the `i`-th cavern, if there is a cavern that it cannot
/// reach.
pub open spec fn far_end(g: GridView, caverns: Seq<(usize, usize)>, i: int) -> Option<int> {
    if exists|t: int| is_far_end(g, caverns, i, t) {
        Some(choose|t: int| is_far_end(g, caverns, i, t))
    } else {
        None
    }
}

/// No two caverns are the far end of a tunnel from the same cavern.
pub proof fn lemma_far_end_unique(g: GridView, caverns: Seq<(usize, usize)>, i: int, t: int, u: int)
    requires
        is_far_end(g, caverns, i, t),
        is_far_end(g, caverns, i, u),
    ensures
        t == u,
{
    assert(nearer(caverns, i, t, u));
    assert(nearer(caverns, i, u, t));
}

/// The grid after `walks` walks of `walk_len` steps from `at` were carved for `region`, and
/// the stream after the last draw.
pub open spec fn carved_from(
    g: GridView,
    at: (usize, usize),
    region: usize,
    walks: usize,
    walk_len: usize,
    rng: RandomStream,
) -> (GridView, RandomStream)
    decreases walks,
{
    if walks == 0 {
        (g, rng)
    } else {
        let walk = walked(at, walk_len as nat, g.width, g.height, rng);
        carved_from(
            g.carve(at, region).carve_all(walk.0, region),
            at,
            region,
            (walks - 1) as usize,
            walk_len,
            walk.1,
        )
    }
}

/// The grid after the caverns from the `a`-th on were carved, each with `walk_count` walks
/// under its number as region, and the stream after the last draw.
pub open spec fn carved(
    g: GridView,
    caverns: Seq<(usize, usize)>,
    a: nat,
    walk_count: usize,
    walk_len: usize,
    rng: RandomStream,
) -> (GridView, RandomStream)
    decreases caverns.len() - a,
{
    if a >= caverns.len() {
        (g, rng)
    } else {
        let one = carved_from(g, caverns[a as int], a as usize, walk_count, walk_len, rng);
        carved(one.0, caverns, a + 1, walk_count, walk_len, one.1)
    }
}

/// The cavern towards which a tunnel from the `i`-th is dug.
pub open spec fn tunnel_target(g: GridView, caverns: Seq<(usize, usize)>, i: int) -> int {
    match far_end(g, caverns, i) {
        Some(t) => t,
        None => 0,
    }
}

/// How the repair goes on from the `i`-th cavern: the grid in the end, the failure if a
/// tunnel gave up, and the stream after the last draw.
pub open spec fn connected(
    g: GridView,
    caverns: Seq<(usize, usize)>,
    i: nat,
    max_steps: usize,
    rng: RandomStream,
) -> (GridView, Option<GenerationError>, RandomStream)
    decreases caverns.len() - i,
{
    if i >= caverns.len() {
        (g, None, rng)
    } else if reachable(g, caverns[0], caverns[i as int]) {
        connected(g, caverns, i + 1, max_steps, rng)
    } else {
        let from = caverns[i as int];
        let to = caverns[tunnel_target(g, caverns, i as int)];
        let run = tunnelled(g, from, to, from, 0, max_steps, i as usize, rng);
        let dug = g.carve_all(run.0, i as usize);
        if run.1 {
            connected(dug, caverns, i + 1, max_steps, run.2)
        } else {
            (dug, Some(GenerationError::ConnectionFailed { from, to }), run.2)
        }
    }
}

/// What a run makes of a grid: the grid in the end, the caverns or the failure, and the
/// stream after the last draw. It is a function of the grid, the settings, the limits and
/// the stream before the run, so equal seeds give equal grids.
pub open spec fn outcome(
    g: GridView,
    settings: GenerationSettings,
    limits: GenerationLimits,
    rng: RandomStream,
) -> (GridView, Result<Seq<(usize, usize)>, GenerationError>, RandomStream) {
    if !settings.valid() {
        (g, Err(GenerationError::InvalidSettings), rng)
    } else {
        let placing = placed(
            g,
            seq![centre(g)],
            settings.cavern_count,
            settings.max_cavern_dist,
            limits.max_placement_attempts as nat,
            rng,
        );
        match placing.0 {
            None => (g, Err(GenerationError::PlacementTimeout), placing.1),
            Some(caverns) => {
                let carving = carved(
                    g,
                    caverns,
                    0,
                    settings.walk_count,
                    settings.walk_len,
                    placing.1,
                );
                let joining = connected(
                    carving.0,
                    caverns,
                    0,
                    limits.max_tunnel_steps,
                    carving.1,
                );
                (
                    joining.0,
                    match joining.1 {
                        None => Ok(caverns),
                        Some(e) => Err(e),
                    },
                    joining.2,
                )
            },
        }
    }
}

/// Two runs from equal grids with equal settings, limits and seeds end with equal grids,
/// equal results and equal streams.
pub proof fn lemma_same_seed_same_grid(
    g1: GridView,
    g2: GridView,
    settings1: GenerationSettings,
    settings2: GenerationSettings,
    limits1: GenerationLimits,
    limits2: GenerationLimits,
    seed1: u64,
    seed2: u64,
)
    requires
        g1 == g2,
        settings1 == settings2,
        limits1 == limits2,
        seed1 == seed2,
    ensures
        outcome(g1, settings1, limits1, RandomStream { seed: seed1, position: 0 }) == outcome(
            g2,
            settings2,
            limits2,
            RandomStream { seed: seed2, position: 0 },
        ),
{
}

/// The result of a run is the one that `expected` names.
pub open spec fn same_result(
    r: Result<Vec<(usize, usize)>, GenerationError>,
    expected: Result<Seq<(usize, usize)>, GenerationError>,
) -> bool {
    match (r, expected) {
        (Ok(caverns), Ok(named)) => caverns@ == named,
        (Err(e), Err(named)) => e == named,
        _ => false,
    }
}

/// The `k`-th cavern can be reached from the first, or reaches a cavern whose turn in the
/// repair, which has come to the `i`-th, is still ahead.
spec fn anchored(g: GridView, caverns: Seq<(usize, usize)>, i: int, k: int) -> bool {
    reachable(g, caverns[0], caverns[k]) || exists|w: int|
        i <= w < caverns.len() && #[trigger] reachable(g, caverns[k], caverns[w])
}

/// Every cavern is anchored while the repair stands at the `i`-th.
spec fn all_anchored(g: GridView, caverns: Seq<(usize, usize)>, i: int) -> bool {
    forall|k: int| 0 <= k < caverns.len() ==> #[trigger] anchored(g, caverns, i, k)
}

/// Every cavern can be reached from the first.
pub open spec fn all_connected(g: GridView, caverns: Seq<(usize, usize)>) -> bool {
    forall|k: int| 0 <= k < caverns.len() ==> reachable(g, caverns[0], #[trigger] caverns[k])
}

/// What a successful run leaves: the caverns asked for, placed by the rule, carved, and
/// all within reach of the first.
pub open spec fn generated(
    before: GridView,
    after: GridView,
    settings: GenerationSettings,
    caverns: Seq<(usize, usize)>,
) -> bool {
    &&& caverns.len() == settings.cavern_count
    &&& placement_ok(before, caverns, settings.max_cavern_dist)
    &&& caverns_open(after, caverns)
    &&& all_connected(after, caverns)
}

/// Before the repair starts every cavern is anchored, by itself.
proof fn lemma_repair_begins(g: GridView, caverns: Seq<(usize, usize)>)
    requires
        caverns_open(g, caverns),
    ensures
        all_anchored(g, caverns, 0),
{
    assert forall|k: int| 0 <= k < caverns.len() implies #[trigger] anchored(g, caverns, 0, k) by {
        assert(g.is_open(caverns[k]));
        lemma_reachable_self(g, caverns[k]);
        assert(reachable(g, caverns[k], caverns[k]));
    }
}

/// A cavern that the first one already reaches needs no tunnel: the repair moves on.
proof fn lemma_repair_skips(g: GridView, caverns: Seq<(usize, usize)>, i: int)
    requires
        0 <= i < caverns.len(),
        caverns_open(g, caverns),
        all_anchored(g, caverns, i),
        reachable(g, caverns[0], caverns[i]),
    ensures
        all_anchored(g, caverns, i + 1),
{
    assert forall|k: int| 0 <= k < caverns.len() implies #[trigger] anchored(
        g,
        caverns,
        i + 1,
        k,
    ) by {
        assert(anchored(g, caverns, i, k));
        if !reachable(g, caverns[0], caverns[k]) {
            let w = choose|w: int|
                i <= w < caverns.len() && #[trigger] reachable(g, caverns[k], caverns[w]);
            if w == i {
                assert(g.is_open(caverns[k]));
                lemma_reachable_symmetric(g, caverns[k], caverns[i]);
                lemma_reachable_transitive(g, caverns[0], caverns[i], caverns[k]);
            }
        }
    }
}

/// After a tunnel has joined the `i`-th cavern to one that it could not reach before, the
/// repair moves on.
proof fn lemma_repair_tunnels(
    g: GridView,
    h: GridView,
    caverns: Seq<(usize, usize)>,
    i: int,
    t: int,
)
    requires
        0 <= i < caverns.len(),
        0 <= t < caverns.len(),
        g.wf(),
        g.grows_to(h),
        caverns_open(g, caverns),
        all_anchored(g, caverns, i),
        !reachable(g, caverns[i], caverns[t]),
        reachable(h, caverns[i], caverns[t]),
    ensures
        all_anchored(h, caverns, i + 1),
{
    assert forall|k: int| 0 <= k < caverns.len() implies #[trigger] anchored(
        h,
        caverns,
        i + 1,
        k,
    ) by {
        assert(anchored(g, caverns, i, k));
        assert(g.is_open(caverns[k]));
        assert(g.is_open(caverns[i]));
        assert(g.is_open(caverns[t]));
        lemma_open_survives(g, h, caverns[k]);
        lemma_open_survives(g, h, caverns[i]);
        lemma_open_survives(g, h, caverns[t]);
        if reachable(g, caverns[0], caverns[k]) {
            lemma_reachable_survives(g, h, caverns[0], caverns[k]);
        } else {
            let w = choose|w: int|
                i <= w < caverns.len() && #[trigger] reachable(g, caverns[k], caverns[w]);
            lemma_reachable_survives(g, h, caverns[k], caverns[w]);
            if w == i {
                // k reaches i, i reaches t; t is anchored in g
                lemma_reachable_transitive(h, caverns[k], caverns[i], caverns[t]);
                assert(anchored(g, caverns, i, t));
                if reachable(g, caverns[0], caverns[t]) {
                    lemma_reachable_survives(g, h, caverns[0], caverns[t]);
                    lemma_reachable_symmetric(h, caverns[k], caverns[t]);
                    lemma_reachable_transitive(h, caverns[0], caverns[t], caverns[k]);
                } else {
                    let v = choose|v: int|
                        i <= v < caverns.len() && #[trigger] reachable(g, caverns[t], caverns[v]);
                    if v == i {
                        lemma_reachable_symmetric(g, caverns[t], caverns[i]);
                    }
                    lemma_reachable_survives(g, h, caverns[t], caverns[v]);
                    lemma_reachable_transitive(h, caverns[k], caverns[t], caverns[v]);
                    assert(reachable(h, caverns[k], caverns[v]));
                }
            } else {
                assert(reachable(h, caverns[k], caverns[w]));
            }
        }
    }
}

/// Once the repair has passed the last cavern, every cavern is within reach of the first.
proof fn lemma_repair_ends(g: GridView, caverns: Seq<(usize, usize)>)
    requires
        all_anchored(g, caverns, caverns.len() as int),
    ensures
        all_connected(g, caverns),
{
    assert forall|k: int| 0 <= k < caverns.len() implies reachable(
        g,
        caverns[0],
        #[trigger] caverns[k],
    ) by {
        assert(anchored(g, caverns, caverns.len() as int, k));
    }
}

impl Grid {
    /// Picks the far end of a tunnel from the `i`-th cavern: among the caverns that it
    /// cannot reach, the nearest, and of several equally near the first in the list.
    /// Returns `None` when it reaches them all.
    pub fn nearest_unconnected(&self, caverns: &Vec<(usize, usize)>, i: usize) -> (r: Option<
        usize,
    >)
        requires
            self@.wf(),
            i < caverns@.len(),
        ensures
            match r {
                Some(t) => is_far_end(self@, caverns@, i as int, t as int) && far_end(
                    self@,
                    caverns@,
                    i as int,
                ) == Some(t as int),
                None => far_end(self@, caverns@, i as int) is None && forall|j: int|
                    0 <= j < caverns@.len() ==> !#[trigger] cut_off(self@, caverns@, i as int, j),
            },
    {
        let from = caverns[i];
        let mut best: Option<usize> = None;
        let mut best_dist: usize = 0;
        let mut j: usize = 0;
        while j < caverns.len()
            invariant
                self@.wf(),
                i < caverns@.len(),
                from == caverns@[i as int],
                j <= caverns@.len(),
                match best {
                    Some(t) => {
                        &&& t < j
                        &&& best_dist == chebyshev(caverns@[i as int], caverns@[t as int])
                        &&& cut_off(self@, caverns@, i as int, t as int)
                        &&& forall|m: int|
                            0 <= m < j && #[trigger] cut_off(self@, caverns@, i as int, m)
                                ==> nearer(caverns@, i as int, t as int, m)
                    },
                    None => forall|m: int|
                        0 <= m < j ==> !#[trigger] cut_off(self@, caverns@, i as int, m),
                },
            decreases caverns@.len() - j,
        {
            let other = caverns[j];
            if self.get_path(from, other).is_none() {
                let d = distance(from, other);
                let closer = match best {
                    Some(_) => d < best_dist,
                    None => true,
                };
                if closer {
                    best = Some(j);
                    best_dist = d;
                }
            }
            j = j + 1;
        }
        proof {
            match best {
                Some(t) => {
                    assert(is_far_end(self@, caverns@, i as int, t as int));
                    let u = choose|u: int| is_far_end(self@, caverns@, i as int, u);
                    lemma_far_end_unique(self@, caverns@, i as int, t as int, u);
                },
                None => {
                    assert forall|u: int| !is_far_end(self@, caverns@, i as int, u) by {
                        if is_far_end(self@, caverns@, i as int, u) {
                            assert(!cut_off(self@, caverns@, i as int, u));
                        }
                    }
                },
            }
        }
        best
    }

    /// Carves `walk_count` walks of `walk_len` steps from each cavern, each cavern's cells
    /// under its number in the list as region.
    pub fn carve_caverns(
        &mut self,
        caverns: &Vec<(usize, usize)>,
        walk_count: usize,
        walk_len: usize,
        rng: &mut RandomStream,
    )
        requires
            old(self)@.wf(),
            walk_count > 0,
            forall|k: int| 0 <= k < caverns@.len() ==> old(self)@.in_bounds(#[trigger] caverns@[k]),
        ensures
            final(self)@ == carved(old(self)@, caverns@, 0, walk_count, walk_len, *old(rng)).0,
            *final(rng) == carved(old(self)@, caverns@, 0, walk_count, walk_len, *old(rng)).1,
            final(self)@.wf(),
            old(self)@.grows_to(final(self)@),
            caverns_open(final(self)@, caverns@),
    {
        let ghost whole = carved(self@, caverns@, 0, walk_count, walk_len, *rng);
        let mut a: usize = 0;
        while a < caverns.len()
            invariant
                a <= caverns@.len(),
                walk_count > 0,
                self@.wf(),
                old(self)@.wf(),
                old(self)@.grows_to(self@),
                whole == carved(old(self)@, caverns@, 0, walk_count, walk_len, *old(rng)),
                whole == carved(self@, caverns@, a as nat, walk_count, walk_len, *rng),
                forall|k: int|
                    0 <= k < caverns@.len() ==> old(self)@.in_bounds(#[trigger] caverns@[k]),
                forall|k: int| 0 <= k < a ==> self@.is_open(#[trigger] caverns@[k]),
            decreases caverns@.len() - a,
        {
            let at = caverns[a];
            let ghost one = carved_from(self@, at, a, walk_count, walk_len, *rng);
            let mut b: usize = 0;
            while b < walk_count
                invariant
                    a < caverns@.len(),
                    at == caverns@[a as int],
                    b <= walk_count,
                    one == carved_from(self@, at, a, (walk_count - b) as usize, walk_len, *rng),
                    self@.wf(),
                    old(self)@.wf(),
                    old(self)@.grows_to(self@),
                    forall|k: int|
                        0 <= k < caverns@.len() ==> old(self)@.in_bounds(#[trigger] caverns@[k]),
                    forall|k: int| 0 <= k < a ==> self@.is_open(#[trigger] caverns@[k]),
                    b > 0 ==> self@.is_open(at),
                decreases walk_count - b,
            {
                let ghost before = self@;
                self.random_walk(at.0, at.1, walk_len, a, rng);
                proof {
                    lemma_grows_transitive(old(self)@, before, self@);
                    assert(old(self)@.in_bounds(caverns@[a as int]));
                    assert forall|k: int| 0 <= k < a implies self@.is_open(
                        #[trigger] caverns@[k],
                    ) by {
                        lemma_open_survives(before, self@, caverns@[k]);
                    }
                }
                b = b + 1;
            }
            a = a + 1;
        }
    }

    /// Connects every cavern to the first. The caverns are taken in order; one that the
    /// first cannot reach at its turn gets a tunnel towards the nearest cavern that it
    /// cannot reach itself.
    pub fn connect_caverns(
        &mut self,
        caverns: &Vec<(usize, usize)>,
        rng: &mut RandomStream,
        max_tunnel_steps: usize,
    ) -> (r: Result<(), GenerationError>)
        requires
            old(self)@.wf(),
            caverns@.len() >= 1,
            caverns_open(old(self)@, caverns@),
        ensures
            ({
                let run = connected(old(self)@, caverns@, 0, max_tunnel_steps, *old(rng));
                &&& final(self)@ == run.0
                &&& *final(rng) == run.2
                &&& match r {
                    Ok(_) => run.1 is None,
                    Err(e) => run.1 == Some(e),
                }
            }),
            final(self)@.wf(),
            old(self)@.grows_to(final(self)@),
            caverns_open(final(self)@, caverns@),
            match r {
                Ok(_) => all_connected(final(self)@, caverns@),
                Err(e) => exists|i: int, t: int|
                    0 <= i < caverns@.len() && 0 <= t < caverns@.len() && e == (
                    GenerationError::ConnectionFailed {
                        from: #[trigger] caverns@[i],
                        to: #[trigger] caverns@[t],
                    }),
            },
            all_connected(old(self)@, caverns@) ==> r is Ok && final(self)@ == old(self)@,
    {
        let origin = caverns[0];
        let ghost whole = connected(self@, caverns@, 0, max_tunnel_steps, *rng);
        let mut i: usize = 0;
        proof {
            lemma_repair_begins(self@, caverns@);
        }
        while i < caverns.len()
            invariant
                i <= caverns@.len(),
                whole == connected(old(self)@, caverns@, 0, max_tunnel_steps, *old(rng)),
                whole == connected(self@, caverns@, i as nat, max_tunnel_steps, *rng),
                caverns@.len() >= 1,
                origin == caverns@[0],
                self@.wf(),
                old(self)@.wf(),
                old(self)@.grows_to(self@),
                caverns_open(self@, caverns@),
                all_anchored(self@, caverns@, i as int),
                all_connected(old(self)@, caverns@) ==> self@ == old(self)@,
            decreases caverns@.len() - i,
        {
            let cavern = caverns[i];
            if self.get_path(origin, cavern).is_none() {
                let t = match self.nearest_unconnected(caverns, i) {
                    Some(t) => t,
                    None => {
                        proof {
                            assert(!cut_off(self@, caverns@, i as int, 0));
                            assert(self@.is_open(caverns@[i as int]));
                            lemma_reachable_symmetric(self@, cavern, origin);
                        }
                        0
                    },
                };
                let ghost before = self@;
                proof {
                    assert(cut_off(before, caverns@, i as int, t as int));
                }
                match self.generate_connecting_tunnel(cavern, caverns[t], i, rng, max_tunnel_steps) {
                    Ok(_) => {},
                    Err(e) => {
                        proof {
                            lemma_grows_transitive(old(self)@, before, self@);
                            assert forall|k: int| 0 <= k < caverns@.len() implies self@.is_open(
                                #[trigger] caverns@[k],
                            ) by {
                                lemma_open_survives(before, self@, caverns@[k]);
                            }
                        }
                        return Err(e);
                    },
                }
                proof {
                    lemma_grows_transitive(old(self)@, before, self@);
                    assert forall|k: int| 0 <= k < caverns@.len() implies self@.is_open(
                        #[trigger] caverns@[k],
                    ) by {
                        lemma_open_survives(before, self@, caverns@[k]);
                    }
                    lemma_repair_tunnels(before, self@, caverns@, i as int, t as int);
                }
            } else {
                proof {
                    lemma_repair_skips(self@, caverns@, i as int);
                }
            }
            i = i + 1;
        }
        proof {
            lemma_repair_ends(self@, caverns@);
        }
        Ok(())
    }

    /// Places the caverns, carves them and connects them. Settings with a zero field are
    /// refused before anything is drawn or carved, and so is a placement that gives up.
    pub fn generate_caverns(
        &mut self,
        settings: &GenerationSettings,
        limits: &GenerationLimits,
        rng: &mut RandomStream,
    ) -> (r: Result<Vec<(usize, usize)>, GenerationError>)
        requires
            old(self)@.wf(),
        ensures
            final(self)@.wf(),
            old(self)@.grows_to(final(self)@),
            final(self)@ == outcome(old(self)@, *settings, *limits, *old(rng)).0,
            same_result(r, outcome(old(self)@, *settings, *limits, *old(rng)).1),
            *final(rng) == outcome(old(self)@, *settings, *limits, *old(rng)).2,
            !settings.valid() <==> r == Err::<Vec<(usize, usize)>, GenerationError>(
                GenerationError::InvalidSettings,
            ),
            match r {
                Ok(caverns) => generated(old(self)@, final(self)@, *settings, caverns@),
                Err(GenerationError::InvalidSettings) => final(self)@ == old(self)@,
                Err(GenerationError::PlacementTimeout) => final(self)@ == old(self)@
                    && settings.cavern_count > 1,
                Err(GenerationError::ConnectionFailed { from, to }) => final(self)@.is_open(from)
                    && final(self)@.is_open(to),
            },
    {
        if !settings.is_valid() {
            return Err(GenerationError::InvalidSettings);
        }
        let caverns = match self.place_caverns(
            settings.cavern_count,
            settings.max_cavern_dist,
            rng,
            limits.max_placement_attempts,
        ) {
            Ok(caverns) => caverns,
            Err(e) => {
                return Err(e);
            },
        };
        proof {
            assert forall|k: int| 0 <= k < caverns@.len() implies old(self)@.in_bounds(
                #[trigger] caverns@[k],
            ) by {
                assert(placed_at(old(self)@, caverns@, settings.max_cavern_dist, k));
            }
        }
        self.carve_caverns(&caverns, settings.walk_count, settings.walk_len, rng);
        let ghost carved = self@;
        match self.connect_caverns(&caverns, rng, limits.max_tunnel_steps) {
            Ok(_) => {
                proof {
                    lemma_grows_transitive(old(self)@, carved, self@);
                }
                Ok(caverns)
            },
            Err(e) => {
                proof {
                    lemma_grows_transitive(old(self)@, carved, self@);
                }
                Err(e)
            },
        }
    }

    /// Runs one generation on top of what the grid holds: see `generate_caverns`.
    pub fn generate(
        &mut self,
        settings: &GenerationSettings,
        limits: &GenerationLimits,
        rng: &mut RandomStream,
    ) -> (r: Result<Vec<(usize, usize)>, GenerationError>)
        requires
            old(self)@.wf(),
        ensures
            final(self)@.wf(),
            old(self)@.grows_to(final(self)@),
            final(self)@ == outcome(old(self)@, *settings, *limits, *old(rng)).0,
            same_result(r, outcome(old(self)@, *settings, *limits, *old(rng)).1),
            *final(rng) == outcome(old(self)@, *settings, *limits, *old(rng)).2,
            !settings.valid() <==> r == Err::<Vec<(usize, usize)>, GenerationError>(
                GenerationError::InvalidSettings,
            ),
            match r {
                Ok(caverns) => generated(old(self)@, final(self)@, *settings, caverns@),
                Err(GenerationError::InvalidSettings) => final(self)@ == old(self)@,
                Err(GenerationError::PlacementTimeout) => final(self)@ == old(self)@
                    && settings.cavern_count > 1,
                Err(GenerationError::ConnectionFailed { from, to }) => final(self)@.is_open(from)
                    && final(self)@.is_open(to),
            },
    {
        self.generate_caverns(settings, limits, rng)
    }
}

} // verus!
