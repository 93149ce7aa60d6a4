use vstd::prelude::*;

use crate::geometry::{dist2, within, COORD_LIMIT};
use crate::motion::all_one_shape;
use crate::shape::{beats, lemma_unique_predator, spec_beats, spec_predator, Shape};
use crate::swarm::{distance_squared, in_range, Agent};

verus! {

/// Agent `a` beats agent `b` and lies strictly within `radius` of it.
pub open spec fn captures(agents: Seq<Agent>, a: int, b: int, radius: int) -> bool {
    &&& 0 <= a < agents.len()
    &&& dist2(agents[a].pos, agents[b].pos) < radius * radius
    &&& spec_beats(agents[a].shape, agents[b].shape)
}

/// The shape of agent `b` after a conversion pass over `agents`: the shape that
/// beats it when some agent of that shape lies within `radius`, else its own.
pub open spec fn spec_converted(agents: Seq<Agent>, b: int, radius: int) -> Shape {
    if exists|a: int| captures(agents, a, b, radius) {
        spec_predator(agents[b].shape)
    } else {
        agents[b].shape
    }
}

/// Converts every agent that lies strictly within `capture_range` of an agent
/// that beats it into that agent's shape. Every decision reads the shapes the
/// pass began with, so the order of the agents does not matter.
pub fn conversion_update(agents: &mut Vec<Agent>, capture_range: i64)
    requires
        in_range(old(agents)@),
        0 <= capture_range <= COORD_LIMIT,
    ensures
        final(agents).len() == old(agents).len(),
        forall|b: int|
            0 <= b < final(agents).len() ==> #[trigger] final(agents)@[b].pos == old(
                agents,
            )@[b].pos,
        forall|b: int|
            0 <= b < final(agents).len() ==> #[trigger] final(agents)@[b].shape == spec_converted(
                old(agents)@,
                b,
                capture_range as int,
            ),
        forall|a: int, b: int|
            0 <= b < final(agents).len() && #[trigger] captures(
                old(agents)@,
                a,
                b,
                capture_range as int,
            ) ==> final(agents)@[b].shape == old(agents)@[a].shape,
        all_one_shape(old(agents)@) ==> final(agents)@ == old(agents)@,
        in_range(final(agents)@),
{
    let ghost start = agents@;
    let rw = capture_range as i128;
    assert(0 <= rw * rw <= 0x4000_0000_0000_0000) by (nonlinear_arith)
        requires
            0 <= rw <= COORD_LIMIT,
    ;
    let r2 = rw * rw;
    let mut shapes: Vec<Shape> = Vec::new();
    let mut b: usize = 0;
    while b < agents.len()
        invariant
            agents@ == start,
            in_range(start),
            r2 == capture_range * capture_range,
            b <= start.len(),
            shapes.len() == b,
            forall|m: int|
                0 <= m < b ==> #[trigger] shapes@[m] == spec_converted(
                    start,
                    m,
                    capture_range as int,
                ),
        decreases start.len() - b,
    {
        let prey = agents[b];
        assert(within(start[b as int].pos, COORD_LIMIT as int));
        let mut shape = prey.shape;
        let mut a: usize = 0;
        while a < agents.len()
            invariant
                agents@ == start,
                in_range(start),
                r2 == capture_range * capture_range,
                b < start.len(),
                prey == start[b as int],
                a <= start.len(),
                (exists|m: int| 0 <= m < a && captures(start, m, b as int, capture_range as int))
                    ==> shape == spec_predator(prey.shape),
                !(exists|m: int| 0 <= m < a && captures(start, m, b as int, capture_range as int))
                    ==> shape == prey.shape,
            decreases start.len() - a,
        {
            let hunter = agents[a];
            assert(within(start[a as int].pos, COORD_LIMIT as int));
            if hunter.shape != prey.shape && beats(hunter.shape, prey.shape) {
                let d = distance_squared(hunter.pos, prey.pos);
                if d < r2 {
                    proof {
                        lemma_unique_predator(hunter.shape, prey.shape);
                    }
                    shape = hunter.shape;
                }
            }
            proof {
                if !captures(start, a as int, b as int, capture_range as int) {
                    if exists|m: int|
                        0 <= m < a + 1 && captures(start, m, b as int, capture_range as int) {
                        let m = choose|m: int|
                            0 <= m < a + 1 && captures(start, m, b as int, capture_range as int);
                        assert(m < a);
                    }
                }
            }
            a = a + 1;
        }
        proof {
            if exists|m: int| captures(start, m, b as int, capture_range as int) {
                let m = choose|m: int| captures(start, m, b as int, capture_range as int);
                assert(0 <= m < a);
            }
        }
        shapes.push(shape);
        b = b + 1;
    }
    let mut k: usize = 0;
    while k < agents.len()
        invariant
            agents.len() == start.len(),
            shapes.len() == start.len(),
            k <= start.len(),
            forall|m: int| 0 <= m < k ==> #[trigger] agents@[m] == (Agent {
                shape: shapes@[m],
                pos: start[m].pos,
            }),
            forall|m: int| k <= m < start.len() ==> #[trigger] agents@[m] == start[m],
        decreases start.len() - k,
    {
        let pos = agents[k].pos;
        agents.set(k, Agent { shape: shapes[k], pos });
        k = k + 1;
    }
    proof {
        assert forall|a: int, m: int|
            0 <= m < agents@.len() && #[trigger] captures(
                start,
                a,
                m,
                capture_range as int,
            ) implies agents@[m].shape == start[a].shape by {
            assert(agents@[m].shape == shapes@[m]);
            lemma_unique_predator(start[a].shape, start[m].shape);
        }
        assert forall|m: int| 0 <= m < agents@.len() implies within(
            #[trigger] agents@[m].pos,
            COORD_LIMIT as int,
        ) by {
            assert(agents@[m].pos == start[m].pos);
        }
        if all_one_shape(start) {
            assert(agents@ =~= start) by {
                assert forall|m: int| 0 <= m < start.len() implies agents@[m] == start[m] by {
                    assert(shapes@[m] == spec_converted(start, m, capture_range as int));
                    if exists|a: int| captures(start, a, m, capture_range as int) {
                        let a = choose|a: int| captures(start, a, m, capture_range as int);
                        assert(start[a].shape == start[m].shape);
                    }
                }
            }
        }
    }
}

} // verus!
