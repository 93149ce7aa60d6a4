//! A rock-paper-scissors swarm: agents of three kinds steer toward the agents
//! they beat, flee the agents that beat them, keep clear of local crowds, and
//! convert the agents they beat on contact.
//!
//! Positions are fixed-point integers. Each frame first moves every agent and
//! then resolves conversions; both phases decide from the state the phase
//! began with and only then write, so the order of the agents never matters.

pub mod conversion;
pub mod geometry;
pub mod motion;
pub mod shape;
pub mod swarm;
pub mod world;

pub use conversion::conversion_update;
pub use geometry::{
    blend, ceil_sqrt, clamp_length_max, div_toward_zero, scale_to, Point, COORD_LIMIT,
    VECTOR_LIMIT,
};
pub use motion::{
    attraction, frame_steps, motion_update, move_agent, repulsion, FrameSteps, Settings,
    JITTER_FULL, MICROS_PER_SECOND, STEP_LIMIT,
};
pub use shape::{beats, predator_of, Shape};
pub use swarm::{crowd_stats, distance_squared, local_density_centroid, nearest_opposite, Agent};
pub use world::{motion_update_jittered, random_shape, simulate_frame, spawn};
