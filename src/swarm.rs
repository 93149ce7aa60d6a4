use vstd::prelude::*;

use crate::geometry::{dist2, div_toward_zero, lemma_tdiv_bound, tdiv, within, Point, COORD_LIMIT};
use crate::shape::Shape;

verus! {

/// One agent: its shape and its position.
#[derive(Clone, Copy, Debug, PartialEq, Eq, Structural)]
pub struct Agent {
    pub shape: Shape,
    pub pos: Point,
}

/// Every agent lies within the coordinate range that the arithmetic allows.
pub open spec fn in_range(agents: Seq<Agent>) -> bool {
    forall|i: int| 0 <= i < agents.len() ==> within(#[trigger] agents[i].pos, COORD_LIMIT as int)
}

/// Agent `j` has a shape other than agent `i`'s.
pub open spec fn is_opposite(agents: Seq<Agent>, i: int, j: int) -> bool {
    0 <= j < agents.len() && agents[j].shape != agents[i].shape
}

/// Some agent has a shape other than agent `i`'s.
pub open spec fn has_opposite(agents: Seq<Agent>, i: int) -> bool {
    exists|j: int| is_opposite(agents, i, j)
}

/// Agent `j` is the first, in slot order, of the nearest agents of another
/// shape than agent `i`.
pub open spec fn is_nearest_opposite(agents: Seq<Agent>, i: int, j: int) -> bool {
    &&& is_opposite(agents, i, j)
    &&& forall|k: int|
        is_opposite(agents, i, k) ==> dist2(agents[i].pos, agents[j].pos) <= dist2(
            agents[i].pos,
            #[trigger] agents[k].pos,
        )
    &&& forall|k: int|
        0 <= k < j && is_opposite(agents, i, k) ==> dist2(agents[i].pos, agents[j].pos) < dist2(
            agents[i].pos,
            #[trigger] agents[k].pos,
        )
}

/// Agent `k` is another agent than `i`, strictly within distance `radius` of it.
pub open spec fn in_crowd(agents: Seq<Agent>, i: int, k: int, radius: int) -> bool {
    k != i && dist2(agents[i].pos, agents[k].pos) < radius * radius
}

/// How many of the first `n` agents are in agent `i`'s crowd.
pub open spec fn crowd_count(agents: Seq<Agent>, i: int, radius: int, n: int) -> int
    decreases n,
{
    if n <= 0 {
        0
    } else {
        crowd_count(agents, i, radius, n - 1) + if in_crowd(agents, i, n - 1, radius) {
            1int
        } else {
            0int
        }
    }
}

/// Sum of the x coordinates of the first `n` agents that are in agent `i`'s crowd.
pub open spec fn crowd_sum_x(agents: Seq<Agent>, i: int, radius: int, n: int) -> int
    decreases n,
{
    if n <= 0 {
        0
    } else {
        crowd_sum_x(agents, i, radius, n - 1) + if in_crowd(agents, i, n - 1, radius) {
            agents[n - 1].pos.x as int
        } else {
            0int
        }
    }
}

/// Sum of the y coordinates of the first `n` agents that are in agent `i`'s crowd.
pub open spec fn crowd_sum_y(agents: Seq<Agent>, i: int, radius: int, n: int) -> int
    decreases n,
{
    if n <= 0 {
        0
    } else {
        crowd_sum_y(agents, i, radius, n - 1) + if in_crowd(agents, i, n - 1, radius) {
            agents[n - 1].pos.y as int
        } else {
            0int
        }
    }
}

/// The mean position of the other agents strictly within `radius` of agent `i`,
/// each coordinate rounded toward zero; the origin when there are none.
pub open spec fn spec_centroid(agents: Seq<Agent>, i: int, radius: int) -> Point {
    let n = agents.len() as int;
    let c = crowd_count(agents, i, radius, n);
    if c == 0 {
        Point { x: 0, y: 0 }
    } else {
        Point {
            x: tdiv(crowd_sum_x(agents, i, radius, n), c) as i64,
            y: tdiv(crowd_sum_y(agents, i, radius, n), c) as i64,
        }
    }
}

/// Squared distance between two points in range.
pub fn distance_squared(p: Point, q: Point) -> (r: i128)
    requires
        within(p, COORD_LIMIT as int),
        within(q, COORD_LIMIT as int),
    ensures
        r == dist2(p, q),
        0 <= r <= 0x8_0000_0000_0000_0000,
{
    let dx = (q.x as i128) - (p.x as i128);
    let dy = (q.y as i128) - (p.y as i128);
    assert(0 <= dx * dx <= 0x4_0000_0000_0000_0000 && 0 <= dy * dy <= 0x4_0000_0000_0000_0000)
        by (nonlinear_arith)
        requires
            -0x2_0000_0000 <= dx <= 0x2_0000_0000,
            -0x2_0000_0000 <= dy <= 0x2_0000_0000,
    ;
    dx * dx + dy * dy
}

/// The nearest agent of another shape than agent `i`, the first in slot order
/// among equally near ones; `None` when every agent shares agent `i`'s shape.
pub fn nearest_opposite(agents: &Vec<Agent>, i: usize) -> (r: Option<usize>)
    requires
        i < agents.len(),
        in_range(agents@),
    ensures
        r is None <==> !has_opposite(agents@, i as int),
        r matches Some(j) ==> is_nearest_opposite(agents@, i as int, j as int),
{
    let me = agents[i];
    let mut best: Option<usize> = None;
    let mut best_d: i128 = 0;
    let mut k: usize = 0;
    while k < agents.len()
        invariant
            k <= agents.len(),
            i < agents.len(),
            me == agents@[i as int],
            in_range(agents@),
            best is None ==> forall|m: int| 0 <= m < k ==> !is_opposite(agents@, i as int, m),
            best matches Some(j) ==> {
                &&& j < k
                &&& is_opposite(agents@, i as int, j as int)
                &&& best_d == dist2(me.pos, agents@[j as int].pos)
                &&& forall|m: int|
                    0 <= m < k && is_opposite(agents@, i as int, m) ==> best_d <= dist2(
                        me.pos,
                        #[trigger] agents@[m].pos,
                    )
                &&& forall|m: int|
                    0 <= m < j && is_opposite(agents@, i as int, m) ==> best_d < dist2(
                        me.pos,
                        #[trigger] agents@[m].pos,
                    )
            },
        decreases agents.len() - k,
    {
        let other = agents[k];
        if other.shape != me.shape {
            assert(within(agents@[k as int].pos, COORD_LIMIT as int));
            let d = distance_squared(me.pos, other.pos);
            match best {
                None => {
                    best = Some(k);
                    best_d = d;
                },
                Some(_) => {
                    if d < best_d {
                        best = Some(k);
                        best_d = d;
                    }
                },
            }
        }
        k = k + 1;
    }
    proof {
        if best is None {
            assert forall|j: int| !is_opposite(agents@, i as int, j) by {
                if 0 <= j < agents@.len() {
                    assert(!is_opposite(agents@, i as int, j));
                }
            }
        }
    }
    best
}

/// A mean of coordinates in range is in range.
proof fn lemma_mean_in_range(s: int, c: int)
    requires
        c > 0,
        -c * COORD_LIMIT <= s <= c * COORD_LIMIT,
    ensures
        -COORD_LIMIT <= tdiv(s, c) <= COORD_LIMIT,
{
    lemma_tdiv_bound(s, c);
    let q = tdiv(s, c);
    if s >= 0 {
        assert(q <= COORD_LIMIT) by (nonlinear_arith)
            requires
                q * c <= s,
                s <= c * COORD_LIMIT,
                c > 0,
        ;
    } else {
        assert(-q <= COORD_LIMIT) by (nonlinear_arith)
            requires
                -q * c <= -s,
                -s <= c * COORD_LIMIT,
                c > 0,
        ;
    }
}

/// The size and the centroid of agent `i`'s crowd within `radius`.
pub fn crowd_stats(agents: &Vec<Agent>, i: usize, radius: i64) -> (r: (u64, Point))
    requires
        i < agents.len(),
        in_range(agents@),
        0 <= radius <= COORD_LIMIT,
    ensures
        r.0 == crowd_count(agents@, i as int, radius as int, agents@.len() as int),
        r.1 == spec_centroid(agents@, i as int, radius as int),
        within(r.1, COORD_LIMIT as int),
{
    let me = agents[i];
    let rw = radius as i128;
    assert(0 <= rw * rw <= 0x4000_0000_0000_0000) by (nonlinear_arith)
        requires
            0 <= rw <= COORD_LIMIT,
    ;
    let r2 = rw * rw;
    let mut count: u64 = 0;
    let mut sx: i128 = 0;
    let mut sy: i128 = 0;
    let mut k: usize = 0;
    while k < agents.len()
        invariant
            k <= agents.len(),
            i < agents.len(),
            me == agents@[i as int],
            in_range(agents@),
            r2 == radius * radius,
            count <= k,
            count == crowd_count(agents@, i as int, radius as int, k as int),
            sx == crowd_sum_x(agents@, i as int, radius as int, k as int),
            sy == crowd_sum_y(agents@, i as int, radius as int, k as int),
            -count * COORD_LIMIT <= sx <= count * COORD_LIMIT,
            -count * COORD_LIMIT <= sy <= count * COORD_LIMIT,
        decreases agents.len() - k,
    {
        let other = agents[k];
        assert(within(agents@[k as int].pos, COORD_LIMIT as int));
        if k != i {
            let d = distance_squared(me.pos, other.pos);
            if d < r2 {
                sx = sx + other.pos.x as i128;
                sy = sy + other.pos.y as i128;
                count = count + 1;
            }
        }
        k = k + 1;
    }
    if count == 0 {
        (0, Point { x: 0, y: 0 })
    } else {
        proof {
            lemma_mean_in_range(sx as int, count as int);
            lemma_mean_in_range(sy as int, count as int);
        }
        let cx = div_toward_zero(sx, count as i128);
        let cy = div_toward_zero(sy, count as i128);
        (count, Point { x: cx as i64, y: cy as i64 })
    }
}

/// The mean position of the other agents strictly within `radius` of agent
/// `i`; the origin when no other agent is that close.
pub fn local_density_centroid(agents: &Vec<Agent>, i: usize, radius: i64) -> (r: Point)
    requires
        i < agents.len(),
        in_range(agents@),
        0 <= radius <= COORD_LIMIT,
    ensures
        r == spec_centroid(agents@, i as int, radius as int),
        crowd_count(agents@, i as int, radius as int, agents@.len() as int) == 0 ==> r == (Point {
            x: 0,
            y: 0,
        }),
        within(r, COORD_LIMIT as int),
{
    crowd_stats(agents, i, radius).1
}

/// At most one agent is the nearest opposite of a given agent.
pub proof fn lemma_nearest_unique(agents: Seq<Agent>, i: int, j1: int, j2: int)
    requires
        is_nearest_opposite(agents, i, j1),
        is_nearest_opposite(agents, i, j2),
    ensures
        j1 == j2,
{
    let p = agents[i].pos;
    assert(dist2(p, agents[j1].pos) <= dist2(p, agents[j2].pos));
    assert(dist2(p, agents[j2].pos) <= dist2(p, agents[j1].pos));
}

} // verus!
