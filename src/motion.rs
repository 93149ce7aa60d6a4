use vstd::prelude::*;

use crate::geometry::{
    blend, ceil_sqrt_of, clamp_length_max, dist2, is_ceil_sqrt, lemma_ceil_sqrt_exists,
    lemma_norm2_parts, lemma_scale_coords, lemma_scaled_coord, norm2, scale_to, spec_blend,
    spec_clamp, spec_scale, tdiv, within, Point, COORD_LIMIT,
};
use crate::shape::{beats, spec_beats};
use crate::swarm::{
    crowd_count, crowd_stats, crowd_sum_x, crowd_sum_y, has_opposite, in_crowd, in_range, is_nearest_opposite, is_opposite,
    lemma_nearest_unique, nearest_opposite, spec_centroid, Agent,
};

verus! {

/// A jitter of this many thousandths leaves the approach step whole.
pub const JITTER_FULL: u32 = 1000;

/// Microseconds in a second.
pub const MICROS_PER_SECOND: i64 = 1_000_000;

/// Longest step that one frame may take along either term of the motion.
pub const STEP_LIMIT: i64 = 0x1000_0000_0000;

/// The simulation's configuration; lengths are in position units, speeds in
/// position units per second.
#[derive(Clone, Copy, Debug, PartialEq, Eq, Structural)]
pub struct Settings {
    /// Speed of approach toward prey and of flight from predators.
    pub speed: i64,
    /// Radius within which other agents count as a crowd.
    pub collision_range: i64,
    /// Speed at which an agent moves away from its crowd.
    pub collision_speed: i64,
    /// Radius of the arena.
    pub max_size: i64,
    /// Distance under which a dominant agent converts another.
    pub capture_range: i64,
    /// Thousandths of the way toward its target that an agent moves per second.
    pub blend_rate: i64,
}

impl Settings {
    /// Every setting is a non-negative length or rate within coordinate range.
    pub open spec fn wf(&self) -> bool {
        &&& 0 <= self.speed <= COORD_LIMIT
        &&& 0 <= self.collision_range <= COORD_LIMIT
        &&& 0 <= self.collision_speed <= COORD_LIMIT
        &&& 0 <= self.max_size <= COORD_LIMIT
        &&& 0 <= self.capture_range <= COORD_LIMIT
        &&& 0 <= self.blend_rate <= COORD_LIMIT
    }
}

/// What one frame's elapsed time makes of the settings.
#[derive(Clone, Copy, Debug, PartialEq, Eq, Structural)]
pub struct FrameSteps {
    /// Length of the approach or flight step at full jitter.
    pub approach: i64,
    /// Length of the step away from the crowd.
    pub crowd: i64,
    /// Thousandths of the way toward its target that an agent moves this frame.
    pub alpha: u32,
}

impl FrameSteps {
    /// Both steps are non-negative and short enough to add to a position, and
    /// the blend factor is at most one whole.
    pub open spec fn wf(&self) -> bool {
        &&& 0 <= self.approach <= STEP_LIMIT
        &&& 0 <= self.crowd <= STEP_LIMIT
        &&& self.alpha <= 1000
    }
}

/// The steps of a frame that lasted `dt_micros` microseconds.
pub open spec fn spec_frame_steps(s: Settings, dt_micros: int) -> FrameSteps {
    let a = s.blend_rate * dt_micros / MICROS_PER_SECOND as int;
    FrameSteps {
        approach: (s.speed * dt_micros / MICROS_PER_SECOND as int) as i64,
        crowd: (s.collision_speed * dt_micros / MICROS_PER_SECOND as int) as i64,
        alpha: if a > 1000 {
            1000u32
        } else {
            a as u32
        },
    }
}

/// The approach (or flight) term of agent `i` toward its nearest opposite `j`:
/// toward `j` when `i` beats it, away from it otherwise, `approach` scaled by
/// `jitter` thousandths long.
pub open spec fn spec_attraction(
    agents: Seq<Agent>,
    i: int,
    j: int,
    approach: int,
    jitter: int,
) -> Point {
    let p = agents[i].pos;
    let q = agents[j].pos;
    let v = spec_scale(q.x - p.x, q.y - p.y, approach * jitter / JITTER_FULL as int);
    if spec_beats(agents[i].shape, agents[j].shape) {
        v
    } else {
        Point { x: (-v.x) as i64, y: (-v.y) as i64 }
    }
}

/// The crowding term of agent `i`: `crowd` long, away from the centroid of the
/// other agents within `radius`; zero when there are none.
pub open spec fn spec_repulsion(agents: Seq<Agent>, i: int, radius: int, crowd: int) -> Point {
    if crowd_count(agents, i, radius, agents.len() as int) == 0 {
        Point { x: 0, y: 0 }
    } else {
        let p = agents[i].pos;
        let c = spec_centroid(agents, i, radius);
        spec_scale(p.x - c.x, p.y - c.y, crowd)
    }
}

/// Where agent `i`, whose nearest opposite is `j`, ends the frame: its position
/// plus both terms, clamped to the arena, blended from the old position, and
/// clamped once more so that rounding never leaves the arena.
pub open spec fn spec_moved(
    agents: Seq<Agent>,
    i: int,
    j: int,
    s: Settings,
    f: FrameSteps,
    jitter: int,
) -> Point {
    let p = agents[i].pos;
    let a = spec_attraction(agents, i, j, f.approach as int, jitter);
    let r = spec_repulsion(agents, i, s.collision_range as int, f.crowd as int);
    let target = spec_clamp(
        Point { x: (p.x + a.x + r.x) as i64, y: (p.y + a.y + r.y) as i64 },
        s.max_size as int,
    );
    spec_clamp(spec_blend(p, target, f.alpha as int), s.max_size as int)
}

/// The point lies in the arena of radius `m`.
pub open spec fn in_arena(p: Point, m: int) -> bool {
    norm2(p.x as int, p.y as int) <= m * m
}

/// Agent `k` is the only agent in agent `i`'s crowd: the crowd's count and sums
/// over the first `n` agents are those of `k` alone once `k` is among them.
proof fn lemma_single_crowd(agents: Seq<Agent>, i: int, k: int, radius: int, n: int)
    requires
        0 <= k < agents.len(),
        0 <= n <= agents.len(),
        in_crowd(agents, i, k, radius),
        forall|m: int| 0 <= m < agents.len() && #[trigger] in_crowd(agents, i, m, radius) ==> m == k,
    ensures
        crowd_count(agents, i, radius, n) == if k < n { 1int } else { 0int },
        crowd_sum_x(agents, i, radius, n) == if k < n { agents[k].pos.x as int } else { 0int },
        crowd_sum_y(agents, i, radius, n) == if k < n { agents[k].pos.y as int } else { 0int },
    decreases n,
{
    if n > 0 {
        lemma_single_crowd(agents, i, k, radius, n - 1);
        if n - 1 != k {
            assert(!in_crowd(agents, i, n - 1, radius));
        }
    }
}

/// Two agents that are each other's only crowd push apart: the crowding term of
/// agent `i` is its offset from agent `k` rescaled to the crowd step, no
/// coordinate of it points toward `k`, and it is not zero once the step reaches
/// the distance between them.
pub proof fn lemma_pair_repels(agents: Seq<Agent>, i: int, k: int, radius: int, crowd: int)
    requires
        in_range(agents),
        0 <= i < agents.len(),
        0 <= k < agents.len(),
        in_crowd(agents, i, k, radius),
        forall|m: int| 0 <= m < agents.len() && #[trigger] in_crowd(agents, i, m, radius) ==> m == k,
        0 <= crowd <= STEP_LIMIT,
    ensures
        ({
            let p = agents[i].pos;
            let q = agents[k].pos;
            let r = spec_repulsion(agents, i, radius, crowd);
            &&& r == spec_scale(p.x - q.x, p.y - q.y, crowd)
            &&& (p.x - q.x) * r.x >= 0
            &&& (p.y - q.y) * r.y >= 0
            &&& (p != q && crowd * crowd >= dist2(p, q)) ==> r != (Point { x: 0, y: 0 })
        }),
{
    let p = agents[i].pos;
    let q = agents[k].pos;
    lemma_single_crowd(agents, i, k, radius, agents.len() as int);
    assert(within(agents[k].pos, COORD_LIMIT as int));
    assert(spec_centroid(agents, i, radius) == q);
    let dx = p.x - q.x;
    let dy = p.y - q.y;
    lemma_norm2_parts(dx, dy);
    lemma_ceil_sqrt_exists(norm2(dx, dy));
    lemma_scale_coords(dx, dy, crowd);
    let n = ceil_sqrt_of(norm2(dx, dy));
    assert(norm2(dx, dy) == dist2(p, q)) by (nonlinear_arith)
        requires
            dx == p.x - q.x,
            dy == p.y - q.y,
            dist2(p, q) == (q.x - p.x) * (q.x - p.x) + (q.y - p.y) * (q.y - p.y),
            norm2(dx, dy) == dx * dx + dy * dy,
    ;
    let r = spec_repulsion(agents, i, radius, crowd);
    assert(r == spec_scale(dx, dy, crowd));
    if n != 0 {
        lemma_scaled_coord(dx, crowd, n);
        lemma_scaled_coord(dy, crowd, n);
        let qx = tdiv(dx * crowd, n);
        let qy = tdiv(dy * crowd, n);
        assert(r.x == qx && r.y == qy);
        assert(dx * qx >= 0) by (nonlinear_arith)
            requires
                dx >= 0 ==> qx >= 0,
                dx < 0 ==> qx <= 0,
        ;
        assert(dy * qy >= 0) by (nonlinear_arith)
            requires
                dy >= 0 ==> qy >= 0,
                dy < 0 ==> qy <= 0,
        ;
        if p != q && crowd * crowd >= dist2(p, q) {
            assert(dx != 0 || dy != 0);
            lemma_pair_nonzero(dx, dy, crowd, n);
        }
    } else {
        assert(r == Point { x: 0, y: 0 });
        if p != q {
            assert(dx != 0 || dy != 0);
            assert(norm2(dx, dy) > 0) by (nonlinear_arith)
                requires
                    dx != 0 || dy != 0,
                    norm2(dx, dy) == dx * dx + dy * dy,
            ;
        }
    }
}

/// Rescaling a nonzero vector to at least its own length leaves a nonzero vector.
proof fn lemma_pair_nonzero(dx: int, dy: int, len: int, n: int)
    requires
        dx != 0 || dy != 0,
        is_ceil_sqrt(n, norm2(dx, dy)),
        len * len >= norm2(dx, dy),
        len >= 0,
    ensures
        n > 0,
        tdiv(dx * len, n) != 0 || tdiv(dy * len, n) != 0,
{
    lemma_norm2_parts(dx, dy);
    assert(norm2(dx, dy) > 0) by (nonlinear_arith)
        requires
            dx != 0 || dy != 0,
            norm2(dx, dy) == dx * dx + dy * dy,
    ;
    assert(n > 0);
    assert(len >= n) by (nonlinear_arith)
        requires
            len * len >= norm2(dx, dy),
            n == 0 || (n - 1) * (n - 1) < norm2(dx, dy),
            len >= 0,
            n > 0,
    ;
    let c = if dx != 0 { dx } else { dy };
    let ac = if c >= 0 { c } else { -c };
    assert(ac * len >= n) by (nonlinear_arith)
        requires
            ac >= 1,
            len >= n,
            n > 0,
    ;
    lemma_tdiv_ge_one(c * len, n);
    assert(c * len == ac * len || c * len == -(ac * len)) by (nonlinear_arith)
        requires
            ac == c || ac == -c,
    ;
}

/// A quotient rounded toward zero of a number at least as large as the divisor is not zero.
proof fn lemma_tdiv_ge_one(a: int, b: int)
    requires
        b > 0,
    ensures
        (a >= b || -a >= b) ==> tdiv(a, b) != 0,
{
    if a >= b {
        assert(a / b >= 1) by (nonlinear_arith)
            requires
                a >= b,
                b > 0,
        ;
    } else if -a >= b {
        let c = -a;
        assert(c / b >= 1) by (nonlinear_arith)
            requires
                c >= b,
                b > 0,
        ;
    }
}

/// Converts one frame's elapsed time into step lengths and a blend factor.
pub fn frame_steps(s: &Settings, dt_micros: u32) -> (r: FrameSteps)
    requires
        s.wf(),
    ensures
        r == spec_frame_steps(*s, dt_micros as int),
        r.wf(),
{
    let dt = dt_micros as i128;
    assert(0 <= s.speed * dt <= 0x8000_0000 * 0xffff_ffff
        && 0 <= s.collision_speed * dt <= 0x8000_0000 * 0xffff_ffff
        && 0 <= s.blend_rate * dt <= 0x8000_0000 * 0xffff_ffff) by (nonlinear_arith)
        requires
            0 <= dt <= 0xffff_ffff,
            s.wf(),
    ;
    let approach = (s.speed as i128 * dt) / (MICROS_PER_SECOND as i128);
    let crowd = (s.collision_speed as i128 * dt) / (MICROS_PER_SECOND as i128);
    let a = (s.blend_rate as i128 * dt) / (MICROS_PER_SECOND as i128);
    let alpha: u32 = if a > 1000 {
        1000
    } else {
        a as u32
    };
    FrameSteps { approach: approach as i64, crowd: crowd as i64, alpha }
}

/// The approach or flight term of agent `i` for a jitter of `jitter`
/// thousandths; zero when no agent has another shape.
pub fn attraction(agents: &Vec<Agent>, i: usize, approach: i64, jitter: u32) -> (r: Point)
    requires
        i < agents.len(),
        in_range(agents@),
        0 <= approach <= STEP_LIMIT,
        jitter <= JITTER_FULL,
    ensures
        !has_opposite(agents@, i as int) ==> r == (Point { x: 0, y: 0 }),
        forall|j: int|
            is_nearest_opposite(agents@, i as int, j) ==> r == spec_attraction(
                agents@,
                i as int,
                j,
                approach as int,
                jitter as int,
            ),
        within(r, STEP_LIMIT as int),
{
    match nearest_opposite(agents, i) {
        None => Point { x: 0, y: 0 },
        Some(j) => {
            let me = agents[i];
            let other = agents[j];
            assert(within(agents@[i as int].pos, COORD_LIMIT as int));
            assert(within(agents@[j as int].pos, COORD_LIMIT as int));
            assert(0 <= approach * jitter <= STEP_LIMIT * 1000) by (nonlinear_arith)
                requires
                    0 <= approach <= STEP_LIMIT,
                    jitter <= 1000,
            ;
            let len = approach * (jitter as i64) / (JITTER_FULL as i64);
            assert(len <= STEP_LIMIT) by (nonlinear_arith)
                requires
                    len == approach * jitter / 1000,
                    0 <= approach * jitter <= STEP_LIMIT * 1000,
            ;
            let v = scale_to(other.pos.x - me.pos.x, other.pos.y - me.pos.y, len);
            proof {
                assert forall|j2: int| is_nearest_opposite(agents@, i as int, j2) implies j2 == j by {
                    lemma_nearest_unique(agents@, i as int, j as int, j2);
                }
            }
            if beats(me.shape, other.shape) {
                v
            } else {
                Point { x: -v.x, y: -v.y }
            }
        },
    }
}

/// The crowding term of agent `i`: `crowd` long, away from the centroid of the
/// other agents within `radius`; zero when there are none.
pub fn repulsion(agents: &Vec<Agent>, i: usize, radius: i64, crowd: i64) -> (r: Point)
    requires
        i < agents.len(),
        in_range(agents@),
        0 <= radius <= COORD_LIMIT,
        0 <= crowd <= STEP_LIMIT,
    ensures
        r == spec_repulsion(agents@, i as int, radius as int, crowd as int),
        crowd_count(agents@, i as int, radius as int, agents@.len() as int) == 0 ==> r == (Point {
            x: 0,
            y: 0,
        }),
        within(r, STEP_LIMIT as int),
{
    let (count, c) = crowd_stats(agents, i, radius);
    if count == 0 {
        Point { x: 0, y: 0 }
    } else {
        let p = agents[i].pos;
        assert(within(agents@[i as int].pos, COORD_LIMIT as int));
        scale_to(p.x - c.x, p.y - c.y, crowd)
    }
}

/// Where agent `i` ends the frame; it stays put when no agent has another shape.
pub fn move_agent(
    agents: &Vec<Agent>,
    i: usize,
    s: &Settings,
    f: &FrameSteps,
    jitter: u32,
) -> (r: Point)
    requires
        i < agents.len(),
        in_range(agents@),
        s.wf(),
        f.wf(),
        jitter <= JITTER_FULL,
    ensures
        !has_opposite(agents@, i as int) ==> r == agents@[i as int].pos,
        forall|j: int|
            is_nearest_opposite(agents@, i as int, j) ==> r == spec_moved(
                agents@,
                i as int,
                j,
                *s,
                *f,
                jitter as int,
            ),
        has_opposite(agents@, i as int) ==> in_arena(r, s.max_size as int),
        within(r, COORD_LIMIT as int),
{
    let p = agents[i].pos;
    assert(within(agents@[i as int].pos, COORD_LIMIT as int));
    match nearest_opposite(agents, i) {
        None => p,
        Some(j) => {
            let a = attraction(agents, i, f.approach, jitter);
            let r = repulsion(agents, i, s.collision_range, f.crowd);
            let target = clamp_length_max(
                Point { x: p.x + a.x + r.x, y: p.y + a.y + r.y },
                s.max_size,
            );
            let b = blend(p, target, f.alpha);
            let out = clamp_length_max(b, s.max_size);
            proof {
                assert forall|j2: int| is_nearest_opposite(agents@, i as int, j2) implies j2 == j by {
                    lemma_nearest_unique(agents@, i as int, j as int, j2);
                }
            }
            out
        },
    }
}

/// Every agent shares one shape.
pub open spec fn all_one_shape(agents: Seq<Agent>) -> bool {
    forall|i: int, k: int|
        0 <= i < agents.len() && 0 <= k < agents.len() ==> agents[i].shape == agents[k].shape
}

/// Every agent lies in the arena of radius `m`.
pub open spec fn all_in_arena(agents: Seq<Agent>, m: int) -> bool {
    forall|i: int| 0 <= i < agents.len() ==> in_arena(#[trigger] agents[i].pos, m)
}

/// Moves every agent for one frame, agent `i` with a jitter of `jitters[i]`
/// thousandths. Every decision reads the positions the frame began with.
pub fn motion_update(agents: &mut Vec<Agent>, s: &Settings, f: &FrameSteps, jitters: &Vec<u32>)
    requires
        in_range(old(agents)@),
        s.wf(),
        f.wf(),
        jitters.len() == old(agents).len(),
        forall|k: int| 0 <= k < jitters.len() ==> #[trigger] jitters@[k] <= JITTER_FULL,
    ensures
        final(agents).len() == old(agents).len(),
        forall|i: int|
            0 <= i < final(agents).len() ==> #[trigger] final(agents)@[i].shape
                == old(agents)@[i].shape,
        forall|i: int|
            0 <= i < final(agents).len() && !has_opposite(old(agents)@, i)
                ==> #[trigger] final(agents)@[i] == old(agents)@[i],
        forall|i: int, j: int|
            0 <= i < final(agents).len() && #[trigger] is_nearest_opposite(old(agents)@, i, j)
                ==> final(agents)@[i].pos == spec_moved(
                old(agents)@,
                i,
                j,
                *s,
                *f,
                jitters@[i] as int,
            ),
        forall|i: int|
            0 <= i < final(agents).len() && has_opposite(old(agents)@, i) ==> in_arena(
                #[trigger] final(agents)@[i].pos,
                s.max_size as int,
            ),
        all_in_arena(old(agents)@, s.max_size as int) ==> all_in_arena(
            final(agents)@,
            s.max_size as int,
        ),
        all_one_shape(old(agents)@) ==> final(agents)@ == old(agents)@,
        in_range(final(agents)@),
{
    let ghost start = agents@;
    let mut moved: Vec<Point> = Vec::new();
    let mut i: usize = 0;
    while i < agents.len()
        invariant
            agents@ == start,
            in_range(start),
            s.wf(),
            f.wf(),
            jitters.len() == start.len(),
            forall|k: int| 0 <= k < jitters.len() ==> #[trigger] jitters@[k] <= JITTER_FULL,
            i <= start.len(),
            moved.len() == i,
            forall|k: int|
                0 <= k < i && !has_opposite(start, k) ==> #[trigger] moved@[k] == start[k].pos,
            forall|k: int, j: int|
                0 <= k < i && #[trigger] is_nearest_opposite(start, k, j) ==> moved@[k]
                    == spec_moved(start, k, j, *s, *f, jitters@[k] as int),
            forall|k: int|
                0 <= k < i && has_opposite(start, k) ==> in_arena(
                    #[trigger] moved@[k],
                    s.max_size as int,
                ),
            forall|k: int| 0 <= k < i ==> within(#[trigger] moved@[k], COORD_LIMIT as int),
        decreases start.len() - i,
    {
        let p = move_agent(agents, i, s, f, jitters[i]);
        moved.push(p);
        i = i + 1;
    }
    let mut k: usize = 0;
    while k < agents.len()
        invariant
            agents.len() == start.len(),
            moved.len() == start.len(),
            k <= start.len(),
            forall|m: int| 0 <= m < k ==> #[trigger] agents@[m] == (Agent {
                shape: start[m].shape,
                pos: moved@[m],
            }),
            forall|m: int| k <= m < start.len() ==> #[trigger] agents@[m] == start[m],
        decreases start.len() - k,
    {
        let shape = agents[k].shape;
        agents.set(k, Agent { shape, pos: moved[k] });
        k = k + 1;
    }
    proof {
        assert forall|m: int| 0 <= m < start.len() && has_opposite(start, m) implies in_arena(
            #[trigger] agents@[m].pos,
            s.max_size as int,
        ) by {
            assert(agents@[m].pos == moved@[m]);
        }
        if all_in_arena(start, s.max_size as int) {
            assert forall|m: int| 0 <= m < agents@.len() implies in_arena(
                #[trigger] agents@[m].pos,
                s.max_size as int,
            ) by {
                assert(agents@[m].pos == moved@[m]);
                if !has_opposite(start, m) {
                    assert(in_arena(start[m].pos, s.max_size as int));
                }
            }
        }
        if all_one_shape(start) {
            assert forall|m: int| 0 <= m < start.len() implies !has_opposite(start, m) by {
                if has_opposite(start, m) {
                    let j = choose|j: int| is_opposite(start, m, j);
                    assert(start[j].shape == start[m].shape);
                }
            }
            assert(agents@ =~= start) by {
                assert forall|m: int| 0 <= m < start.len() implies agents@[m] == start[m] by {
                    assert(moved@[m] == start[m].pos);
                }
            }
        }
        assert forall|m: int| 0 <= m < agents@.len() implies within(
            #[trigger] agents@[m].pos,
            COORD_LIMIT as int,
        ) by {
            assert(agents@[m].pos == moved@[m]);
        }
    }
}

} // verus!
