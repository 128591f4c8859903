use vstd::prelude::*;
use crate::geometry::{is_step, moved, step};
use crate::grid::{
    lemma_carve_all_grows, lemma_carve_all_push, lemma_carve_grows, lemma_grows_transitive,
    lemma_open_survives, Cell, Grid,
};
use crate::random::RandomStream;

verus! {

/// The position from which the `i`-th step of a walk sets out.
pub open spec fn walk_origin(start: (usize, usize), path: Seq<(usize, usize)>, i: int) -> (
    usize,
    usize,
) {
    if i == 0 {
        start
    } else {
        path[i - 1]
    }
}

/// The `i`-th position of `path` is one clamped step from where the walk stood before.
pub open spec fn walk_step_at(
    start: (usize, usize),
    path: Seq<(usize, usize)>,
    i: int,
    width: nat,
    height: nat,
) -> bool {
    is_step(walk_origin(start, path, i), path[i], width, height)
}

/// `path` lists the positions that a walk from `start` reaches, one clamped step in one of
/// the four directions at a time.
pub open spec fn is_walk(
    start: (usize, usize),
    path: Seq<(usize, usize)>,
    width: nat,
    height: nat,
) -> bool {
    forall|i: int| 0 <= i < path.len() ==> #[trigger] walk_step_at(start, path, i, width, height)
}

/// A walk that takes one more clamped step is still a walk.
pub proof fn lemma_walk_push(
    start: (usize, usize),
    path: Seq<(usize, usize)>,
    q: (usize, usize),
    width: nat,
    height: nat,
)
    requires
        is_walk(start, path, width, height),
        is_step(walk_origin(start, path, path.len() as int), q, width, height),
    ensures
        is_walk(start, path.push(q), width, height),
{
    let longer = path.push(q);
    assert forall|i: int| 0 <= i < longer.len() implies #[trigger] walk_step_at(
        start,
        longer,
        i,
        width,
        height,
    ) by {
        if i < path.len() {
            assert(walk_step_at(start, path, i, width, height));
        }
    }
}

/// The positions that a walk of `steps` steps from `at` reaches when it draws its
/// directions from `rng`, and the stream after the last draw.
pub open spec fn walked(at: (usize, usize), steps: nat, width: nat, height: nat, rng: RandomStream) -> (
    Seq<(usize, usize)>,
    RandomStream,
)
    decreases steps,
{
    if steps == 0 {
        (Seq::empty(), rng)
    } else {
        let next = moved(at, rng.peek_direction(), width, height);
        let rest = walked(next, (steps - 1) as nat, width, height, rng.advanced());
        (seq![next] + rest.0, rest.1)
    }
}

impl Grid {
    /// Carves the start and then the cells of a walk of `walk_len` random steps from it for
    /// `region`, and returns the positions reached, one per step. A step over the edge of
    /// the grid stays at the edge.
    pub fn random_walk(
        &mut self,
        x0: usize,
        y0: usize,
        walk_len: usize,
        region: usize,
        rng: &mut RandomStream,
    ) -> (path: Vec<(usize, usize)>)
        requires
            old(self)@.wf(),
        ensures
            path@ == walked(
                (x0, y0),
                walk_len as nat,
                old(self)@.width,
                old(self)@.height,
                *old(rng),
            ).0,
            *final(rng) == walked(
                (x0, y0),
                walk_len as nat,
                old(self)@.width,
                old(self)@.height,
                *old(rng),
            ).1,
            final(self)@ == old(self)@.carve((x0, y0), region).carve_all(path@, region),
            path@.len() == walk_len,
            is_walk((x0, y0), path@, old(self)@.width, old(self)@.height),
            final(self)@.wf(),
            old(self)@.grows_to(final(self)@),
            old(self)@.in_bounds((x0, y0)) ==> final(self)@.is_open((x0, y0)),
    {
        let width = self.width();
        let height = self.height();
        let ghost begun = self@.carve((x0, y0), region);
        let ghost whole = walked((x0, y0), walk_len as nat, begun.width, begun.height, *rng);
        let mut at = (x0, y0);
        let mut path: Vec<(usize, usize)> = Vec::new();
        self.set(x0, y0, Cell { open: true, region: Some(region) });
        proof {
            lemma_carve_grows(old(self)@, (x0, y0), region);
            assert(path@ + whole.0 =~= whole.0);
        }
        let mut i: usize = 0;
        while i < walk_len
            invariant
                i <= walk_len,
                path@.len() == i,
                width == begun.width,
                height == begun.height,
                width > 0,
                height > 0,
                begun.wf(),
                at == walk_origin((x0, y0), path@, i as int),
                is_walk((x0, y0), path@, begun.width, begun.height),
                self@ == begun.carve_all(path@, region),
                self@.wf(),
                whole.0 == path@ + walked(
                    at,
                    (walk_len - i) as nat,
                    begun.width,
                    begun.height,
                    *rng,
                ).0,
                whole.1 == walked(at, (walk_len - i) as nat, begun.width, begun.height, *rng).1,
            decreases walk_len - i,
        {
            let ghost rest = walked(at, (walk_len - i) as nat, begun.width, begun.height, *rng);
            let d = rng.next_direction();
            let next = step(at, d, width, height);
            proof {
                lemma_walk_push((x0, y0), path@, next, begun.width, begun.height);
                lemma_carve_all_push(begun, path@, next, region);
                lemma_carve_grows(self@, next, region);
                let tail = walked(
                    next,
                    (walk_len - i - 1) as nat,
                    begun.width,
                    begun.height,
                    *rng,
                );
                assert(rest.0 == seq![next] + tail.0);
                assert(path@ + rest.0 =~= path@.push(next) + tail.0);
            }
            at = next;
            path.push(at);
            self.set(at.0, at.1, Cell { open: true, region: Some(region) });
            i = i + 1;
        }
        proof {
            lemma_carve_all_grows(begun, path@, region);
            lemma_grows_transitive(old(self)@, begun, self@);
            if old(self)@.in_bounds((x0, y0)) {
                lemma_open_survives(begun, self@, (x0, y0));
            }
            assert(path@ + Seq::<(usize, usize)>::empty() =~= path@);
        }
        path
    }
}

} // verus!
