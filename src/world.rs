use rand::distributions::{Distribution, Uniform};
use vstd::prelude::*;

use crate::conversion::{conversion_update, spec_converted};
use crate::geometry::Point;
use crate::motion::{
    all_in_arena, all_one_shape, frame_steps, in_arena, motion_update, spec_frame_steps,
    spec_moved, FrameSteps, Settings, JITTER_FULL,
};
use crate::shape::{spec_predator, Shape};
use crate::swarm::{has_opposite, in_range, is_nearest_opposite, Agent};

verus! {

/// `after` is what one motion pass over `before` gives for some choice of
/// jitters in `[0, 1)`: shapes are kept, an agent with no opposite stays put,
/// and every other agent moves as `spec_moved` says for its jitter.
pub open spec fn is_motion_outcome(
    before: Seq<Agent>,
    after: Seq<Agent>,
    s: Settings,
    f: FrameSteps,
) -> bool {
    &&& after.len() == before.len()
    &&& forall|i: int| 0 <= i < before.len() ==> #[trigger] after[i].shape == before[i].shape
    &&& forall|i: int|
        0 <= i < before.len() && !has_opposite(before, i) ==> #[trigger] after[i] == before[i]
    &&& forall|i: int, j: int|
        0 <= i < before.len() && #[trigger] is_nearest_opposite(before, i, j) ==> exists|t: int|
            0 <= t < JITTER_FULL && after[i].pos == spec_moved(before, i, j, s, f, t)
}

/// `after` is what one conversion pass over `before` gives: positions are
/// kept and each shape is as `spec_converted` says.
pub open spec fn is_conversion_outcome(before: Seq<Agent>, after: Seq<Agent>, capture: int) -> bool {
    &&& after.len() == before.len()
    &&& forall|i: int|
        0 <= i < before.len() ==> #[trigger] after[i].pos == before[i].pos && after[i].shape
            == spec_converted(before, i, capture)
}

/// Relies on rand's `Uniform::new(0, n)` sampled with `thread_rng()`: the value
/// lies in `[0, n)`. `Uniform::new` panics when `n` is zero.
#[verifier::external_body]
fn uniform_below(n: u32) -> (r: u32)
    requires
        n > 0,
    ensures
        r < n,
{
    Uniform::new(0u32, n).sample(&mut rand::thread_rng())
}

/// A shape drawn uniformly at random.
pub fn random_shape() -> (r: Shape) {
    Shape::from_index(uniform_below(3))
}

/// One agent at each of `positions`, each of a shape drawn at random.
pub fn spawn(positions: &Vec<Point>) -> (r: Vec<Agent>)
    ensures
        r.len() == positions.len(),
        forall|i: int| 0 <= i < r.len() ==> #[trigger] r@[i].pos == positions@[i],
{
    let mut agents: Vec<Agent> = Vec::new();
    let mut i: usize = 0;
    while i < positions.len()
        invariant
            i <= positions.len(),
            agents.len() == i,
            forall|k: int| 0 <= k < i ==> #[trigger] agents@[k].pos == positions@[k],
        decreases positions.len() - i,
    {
        let shape = random_shape();
        agents.push(Agent { shape, pos: positions[i] });
        i = i + 1;
    }
    agents
}

/// Moves every agent for one frame, each with a jitter drawn at random in
/// `[0, 1)`; see `motion_update`.
pub fn motion_update_jittered(agents: &mut Vec<Agent>, s: &Settings, f: &FrameSteps)
    requires
        in_range(old(agents)@),
        s.wf(),
        f.wf(),
    ensures
        is_motion_outcome(old(agents)@, final(agents)@, *s, *f),
        all_in_arena(old(agents)@, s.max_size as int) ==> all_in_arena(
            final(agents)@,
            s.max_size as int,
        ),
        all_one_shape(old(agents)@) ==> final(agents)@ == old(agents)@,
        in_range(final(agents)@),
{
    let mut jitters: Vec<u32> = Vec::new();
    let mut i: usize = 0;
    while i < agents.len()
        invariant
            i <= agents.len(),
            jitters.len() == i,
            forall|k: int| 0 <= k < i ==> #[trigger] jitters@[k] < JITTER_FULL,
        decreases agents.len() - i,
    {
        jitters.push(uniform_below(JITTER_FULL));
        i = i + 1;
    }
    let ghost start = agents@;
    motion_update(agents, s, f, &jitters);
    proof {
        assert forall|i: int, j: int|
            0 <= i < agents@.len() && #[trigger] is_nearest_opposite(start, i, j) implies exists|
            t: int,
        | 0 <= t < JITTER_FULL && agents@[i].pos == spec_moved(start, i, j, *s, *f, t) by {
            let t = jitters@[i] as int;
            assert(0 <= t < JITTER_FULL);
        }
    }
}

/// One frame of the simulation, `dt_micros` microseconds long: every agent
/// moves, then every agent within capture range of one that beats it converts.
pub fn simulate_frame(agents: &mut Vec<Agent>, s: &Settings, dt_micros: u32)
    requires
        in_range(old(agents)@),
        s.wf(),
    ensures
        final(agents).len() == old(agents).len(),
        exists|moved: Seq<Agent>|
            #[trigger] is_motion_outcome(
                old(agents)@,
                moved,
                *s,
                spec_frame_steps(*s, dt_micros as int),
            ) && is_conversion_outcome(moved, final(agents)@, s.capture_range as int),
        forall|i: int|
            0 <= i < final(agents).len() ==> #[trigger] final(agents)@[i].shape
                == old(agents)@[i].shape || final(agents)@[i].shape == spec_predator(
                old(agents)@[i].shape,
            ),
        all_in_arena(old(agents)@, s.max_size as int) ==> all_in_arena(
            final(agents)@,
            s.max_size as int,
        ),
        all_one_shape(old(agents)@) ==> final(agents)@ == old(agents)@,
        in_range(final(agents)@),
{
    let ghost start = agents@;
    let f = frame_steps(s, dt_micros);
    motion_update_jittered(agents, s, &f);
    let ghost moved = agents@;
    conversion_update(agents, s.capture_range);
    proof {
        assert forall|i: int| 0 <= i < agents@.len() implies #[trigger] agents@[i].shape
            == start[i].shape || agents@[i].shape == spec_predator(start[i].shape) by {
            assert(moved[i].shape == start[i].shape);
            assert(agents@[i].shape == spec_converted(moved, i, s.capture_range as int));
        }
        assert(is_conversion_outcome(moved, agents@, s.capture_range as int));
        assert(is_motion_outcome(start, moved, *s, spec_frame_steps(*s, dt_micros as int)));
        if all_in_arena(moved, s.max_size as int) {
            assert forall|i: int| 0 <= i < agents@.len() implies in_arena(
                #[trigger] agents@[i].pos,
                s.max_size as int,
            ) by {
                assert(agents@[i].pos == moved[i].pos);
            }
        }
    }
}

} // verus!
