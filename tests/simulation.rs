use rps_swarm::{
    attraction, conversion_update, crowd_stats, distance_squared, frame_steps,
    local_density_centroid, motion_update, motion_update_jittered, move_agent, nearest_opposite,
    repulsion, simulate_frame, spawn, Agent, FrameSteps, Point, Settings, Shape, JITTER_FULL,
};

fn pt(x: i64, y: i64) -> Point {
    Point { x, y }
}

fn agent(shape: Shape, x: i64, y: i64) -> Agent {
    Agent { shape, pos: pt(x, y) }
}

fn settings() -> Settings {
    Settings {
        speed: 100,
        collision_range: 20,
        collision_speed: 60,
        max_size: 800,
        capture_range: 20,
        blend_rate: 1000,
    }
}

fn whole_second() -> FrameSteps {
    frame_steps(&settings(), 1_000_000)
}

fn full_jitter(n: usize) -> Vec<u32> {
    vec![JITTER_FULL; n]
}

#[test]
fn frame_steps_from_elapsed_time() {
    let s = Settings { blend_rate: 5000, ..settings() };
    assert_eq!(frame_steps(&s, 16_667), FrameSteps { approach: 1, crowd: 1, alpha: 83 });
    assert_eq!(
        frame_steps(&settings(), 1_000_000),
        FrameSteps { approach: 100, crowd: 60, alpha: 1000 }
    );
    let fast = Settings { blend_rate: 2_000_000, ..settings() };
    assert_eq!(frame_steps(&fast, 1_000_000).alpha, 1000);
    assert_eq!(frame_steps(&settings(), 0), FrameSteps { approach: 0, crowd: 0, alpha: 0 });
}

#[test]
fn squared_distance() {
    assert_eq!(distance_squared(pt(1, 2), pt(4, 6)), 25);
    assert_eq!(distance_squared(pt(-3, 0), pt(3, 0)), 36);
}

#[test]
fn nearest_opposite_prefers_first_of_equals() {
    let agents = vec![
        agent(Shape::Rock, 0, 0),
        agent(Shape::Paper, 10, 0),
        agent(Shape::Scissors, -10, 0),
        agent(Shape::Rock, 1, 0),
    ];
    assert_eq!(nearest_opposite(&agents, 0), Some(1));
    assert_eq!(nearest_opposite(&agents, 3), Some(1));
    assert_eq!(nearest_opposite(&agents, 2), Some(0));
}

#[test]
fn nearest_opposite_picks_the_closest() {
    let agents = vec![
        agent(Shape::Rock, 0, 0),
        agent(Shape::Paper, 50, 0),
        agent(Shape::Scissors, 0, -20),
        agent(Shape::Rock, 1, 0),
    ];
    assert_eq!(nearest_opposite(&agents, 0), Some(2));
    assert_eq!(nearest_opposite(&agents, 1), Some(3));
}

#[test]
fn nearest_opposite_none_when_one_shape() {
    let agents = vec![agent(Shape::Rock, 0, 0), agent(Shape::Rock, 5, 5)];
    assert_eq!(nearest_opposite(&agents, 0), None);
    assert_eq!(nearest_opposite(&agents, 1), None);
}

#[test]
fn centroid_of_close_agents() {
    let agents = vec![
        agent(Shape::Rock, 0, 0),
        agent(Shape::Paper, 5, 0),
        agent(Shape::Rock, 0, 5),
        agent(Shape::Scissors, 100, 100),
    ];
    assert_eq!(local_density_centroid(&agents, 0, 20), pt(2, 2));
    assert_eq!(crowd_stats(&agents, 0, 20), (2, pt(2, 2)));
    let mirrored = vec![
        agent(Shape::Rock, 0, 0),
        agent(Shape::Paper, -5, 0),
        agent(Shape::Rock, 0, -5),
    ];
    assert_eq!(local_density_centroid(&mirrored, 0, 20), pt(-2, -2));
}

#[test]
fn centroid_of_empty_neighbourhood_is_origin() {
    let agents = vec![agent(Shape::Rock, 300, 300), agent(Shape::Paper, 100, 100)];
    assert_eq!(local_density_centroid(&agents, 0, 20), pt(0, 0));
    assert_eq!(crowd_stats(&agents, 0, 20), (0, pt(0, 0)));
    let alone = vec![agent(Shape::Rock, 300, 300)];
    assert_eq!(local_density_centroid(&alone, 0, 20), pt(0, 0));
}

#[test]
fn centroid_radius_is_strict() {
    let agents = vec![agent(Shape::Rock, 0, 0), agent(Shape::Rock, 20, 0)];
    assert_eq!(crowd_stats(&agents, 0, 20).0, 0);
    assert_eq!(crowd_stats(&agents, 0, 21), (1, pt(20, 0)));
}

#[test]
fn pair_of_one_shape_repels_without_attraction() {
    let agents = vec![agent(Shape::Rock, 0, 0), agent(Shape::Rock, 10, 0)];
    assert_eq!(attraction(&agents, 0, 100, JITTER_FULL), pt(0, 0));
    assert_eq!(attraction(&agents, 1, 100, JITTER_FULL), pt(0, 0));
    assert_eq!(repulsion(&agents, 0, 20, 60), pt(-60, 0));
    assert_eq!(repulsion(&agents, 1, 20, 60), pt(60, 0));
}

#[test]
fn hunter_approaches_and_prey_flees() {
    let agents = vec![agent(Shape::Scissors, 0, 0), agent(Shape::Paper, 100, 0)];
    assert_eq!(attraction(&agents, 0, 100, JITTER_FULL), pt(100, 0));
    assert_eq!(attraction(&agents, 1, 100, JITTER_FULL), pt(100, 0));
    assert_eq!(attraction(&agents, 0, 100, 250), pt(25, 0));
    assert_eq!(repulsion(&agents, 0, 20, 60), pt(0, 0));
}

#[test]
fn motion_exact_positions() {
    let mut agents = vec![agent(Shape::Scissors, 0, 0), agent(Shape::Paper, 100, 0)];
    motion_update(&mut agents, &settings(), &whole_second(), &full_jitter(2));
    assert_eq!(agents, vec![agent(Shape::Scissors, 100, 0), agent(Shape::Paper, 200, 0)]);
}

#[test]
fn motion_blends_halfway() {
    let s = Settings { blend_rate: 500, ..settings() };
    let f = frame_steps(&s, 1_000_000);
    let mut agents = vec![agent(Shape::Scissors, 0, 0), agent(Shape::Paper, 100, 0)];
    assert_eq!(move_agent(&agents, 0, &s, &f, JITTER_FULL), pt(50, 0));
    motion_update(&mut agents, &s, &f, &full_jitter(2));
    assert_eq!(agents, vec![agent(Shape::Scissors, 50, 0), agent(Shape::Paper, 150, 0)]);
}

#[test]
fn motion_stays_in_arena() {
    let s = Settings { speed: 500, ..settings() };
    let f = frame_steps(&s, 1_000_000);
    let mut agents = vec![
        agent(Shape::Scissors, 0, 0),
        agent(Shape::Paper, 500, 500),
        agent(Shape::Paper, 790, 0),
        agent(Shape::Rock, -799, 0),
    ];
    motion_update(&mut agents, &s, &f, &full_jitter(4));
    assert_eq!(agents[1].pos, pt(565, 565));
    for a in &agents {
        let (x, y) = (a.pos.x as i128, a.pos.y as i128);
        assert!(x * x + y * y <= 800 * 800);
    }
}

#[test]
fn one_shape_never_moves() {
    let start = vec![
        agent(Shape::Paper, 0, 0),
        agent(Shape::Paper, 5, 0),
        agent(Shape::Paper, 300, -200),
    ];
    let mut agents = start.clone();
    motion_update(&mut agents, &settings(), &whole_second(), &full_jitter(3));
    assert_eq!(agents, start);
    simulate_frame(&mut agents, &settings(), 16_667);
    assert_eq!(agents, start);
}

#[test]
fn conversion_in_range_only() {
    let mut agents = vec![
        agent(Shape::Rock, 0, 0),
        agent(Shape::Scissors, 19, 0),
        agent(Shape::Scissors, 20, 0),
        agent(Shape::Paper, 5, 0),
    ];
    conversion_update(&mut agents, 20);
    assert_eq!(
        agents,
        vec![
            agent(Shape::Paper, 0, 0),
            agent(Shape::Rock, 19, 0),
            agent(Shape::Scissors, 20, 0),
            agent(Shape::Scissors, 5, 0),
        ]
    );
}

#[test]
fn conversion_of_three_at_one_point_uses_the_snapshot() {
    let mut agents = vec![
        agent(Shape::Scissors, 0, 0),
        agent(Shape::Paper, 0, 0),
        agent(Shape::Rock, 0, 0),
    ];
    conversion_update(&mut agents, 20);
    let shapes: Vec<Shape> = agents.iter().map(|a| a.shape).collect();
    assert_eq!(shapes, vec![Shape::Rock, Shape::Scissors, Shape::Paper]);
}

#[test]
fn conversion_leaves_one_shape_alone() {
    let start = vec![agent(Shape::Rock, 0, 0), agent(Shape::Rock, 1, 1)];
    let mut agents = start.clone();
    conversion_update(&mut agents, 20);
    assert_eq!(agents, start);
}

#[test]
fn spawn_keeps_positions() {
    let positions = vec![pt(100, 0), pt(-300, 400), pt(0, -800)];
    let agents = spawn(&positions);
    let got: Vec<Point> = agents.iter().map(|a| a.pos).collect();
    assert_eq!(got, positions);
}

#[test]
fn jittered_motion_stops_short_of_a_full_step() {
    let s = Settings { blend_rate: 1000, ..settings() };
    let f = frame_steps(&s, 1_000_000);
    for _ in 0..20 {
        let mut agents = vec![agent(Shape::Scissors, 0, 0), agent(Shape::Paper, 100, 0)];
        motion_update_jittered(&mut agents, &s, &f);
        assert!(agents[0].pos.x >= 0 && agents[0].pos.x < 100);
        assert!(agents[1].pos.x >= 100 && agents[1].pos.x < 200);
        assert_eq!(agents[0].pos.y, 0);
        assert_eq!(agents[0].shape, Shape::Scissors);
    }
}

#[test]
fn frame_moves_then_converts() {
    let s = Settings { capture_range: 20, ..settings() };
    let mut agents = vec![agent(Shape::Rock, 0, 0), agent(Shape::Scissors, 5, 0)];
    simulate_frame(&mut agents, &s, 0);
    assert_eq!(agents[1].shape, Shape::Rock);
    assert_eq!(agents[0].pos, pt(0, 0));
}

#[test]
fn crowded_pair_separates_in_a_frame() {
    let mut agents = vec![
        agent(Shape::Rock, 0, 0),
        agent(Shape::Rock, 10, 0),
        agent(Shape::Scissors, 5, 700),
    ];
    simulate_frame(&mut agents, &settings(), 1_000_000);
    let (a, b) = (agents[0].pos, agents[1].pos);
    assert!(a.x < -50 && b.x > 60);
    assert!(distance_squared(a, b) > 100);
    assert_eq!(agents[0].shape, Shape::Rock);
    assert_eq!(agents[1].shape, Shape::Rock);
}
