//! Decisions of the path-tracing loop. The caller traces rays, evaluates
//! materials and densities, and reports what it found at each vertex of a
//! path; these functions decide how the path goes on.

use crate::random::rand_range;
use vstd::prelude::*;

verus! {

/// Bounces traced before a path is cut off and its throughput returned as it
/// is (a known, slight bias).
pub const MAX_BOUNCES: usize = 50;

/// What the tracer found at the current vertex of a path.
#[derive(Clone, Copy, Debug, PartialEq, Eq, Structural)]
pub enum Vertex {
    /// The path throughput fell below the visibility threshold.
    Faded,
    /// The ray left the scene.
    Escaped,
    /// The ray hit a surface; its material may ask for light sampling.
    Surface { wants_importance_sampling: bool },
}

/// How the path goes on.
#[derive(Clone, Copy, Debug, PartialEq, Eq, Structural)]
pub enum Step {
    /// End the path with black.
    Black,
    /// End the path with the background radiance times the throughput.
    Background,
    /// End the path with the throughput as it is: the bounce budget is spent.
    Truncate,
    /// Continue with the direction that the material's own scatter draws.
    Scatter,
    /// Sample with multiple importance toward the analytic light `light`.
    SampleLight { light: usize },
}

/// The step after vertex number `bounce` (counted from zero) of a path, in a
/// scene with `n_lights` analytic lights.
pub open spec fn step_spec(bounce: usize, vertex: Vertex, n_lights: usize, s: Step) -> bool {
    if bounce >= MAX_BOUNCES {
        s == Step::Truncate
    } else {
        match vertex {
            Vertex::Faded => s == Step::Black,
            Vertex::Escaped => s == Step::Background,
            Vertex::Surface { wants_importance_sampling } => {
                if wants_importance_sampling && n_lights > 0 {
                    s matches Step::SampleLight { light } && light < n_lights
                } else {
                    s == Step::Scatter
                }
            },
        }
    }
}

/// Decides the step after a vertex; a light to sample toward is drawn
/// uniformly among the `n_lights` lights.
pub fn next_step(bounce: usize, vertex: Vertex, n_lights: usize) -> (r: Step)
    ensures
        step_spec(bounce, vertex, n_lights, r),
{
    if bounce >= MAX_BOUNCES {
        return Step::Truncate;
    }
    match vertex {
        Vertex::Faded => Step::Black,
        Vertex::Escaped => Step::Background,
        Vertex::Surface { wants_importance_sampling } => {
            if wants_importance_sampling && n_lights > 0 {
                Step::SampleLight { light: rand_range(0, n_lights) }
            } else {
                Step::Scatter
            }
        },
    }
}

/// Which of the two candidate directions of a multiple-importance step the
/// path follows.
#[derive(Clone, Copy, Debug, PartialEq, Eq, Structural)]
pub enum MisChoice {
    /// The direction drawn toward the light.
    Light,
    /// The direction drawn from the material.
    Material,
    /// Neither: both densities vanish, and the path ends with black.
    Black,
}

/// Picks the direction to follow: the light's when its density is positive
/// and the fair coin `coin_light` says so, else the material's when its
/// density is positive, else none.
pub fn choose_mis(light_positive: bool, material_positive: bool, coin_light: bool) -> (r: MisChoice)
    ensures
        r == (if light_positive && coin_light {
            MisChoice::Light
        } else if material_positive {
            MisChoice::Material
        } else {
            MisChoice::Black
        }),
{
    if light_positive && coin_light {
        MisChoice::Light
    } else if material_positive {
        MisChoice::Material
    } else {
        MisChoice::Black
    }
}

} // verus!
