//! Decisions of the player controller that do not depend on physics values.
use vstd::prelude::*;

use crate::voxel::data::VoxelKind;

verus! {

/// A shore can be climbed out onto when the probe hits a solid voxel with two
/// loaded, non-solid voxels above it.
pub fn has_shore_clearance(samples: [Option<VoxelKind>; 3]) -> (clear: bool)
    ensures
        clear == ((samples@[0] matches Some(k) && k.spec_is_solid()) && (samples@[1] matches Some(
            k,
        ) && !k.spec_is_solid()) && (samples@[2] matches Some(k) && !k.spec_is_solid())),
{
    let base = match samples[0] {
        Some(kind) => kind.is_solid(),
        None => false,
    };
    let first = match samples[1] {
        Some(kind) => !kind.is_solid(),
        None => false,
    };
    let second = match samples[2] {
        Some(kind) => !kind.is_solid(),
        None => false,
    };
    base && first && second
}

/// -1, 0 or 1 from a pair of opposite keys.
pub fn axis_input(positive: bool, negative: bool) -> (input: i8)
    ensures
        input == (if positive {
            1int
        } else {
            0
        }) - (if negative {
            1int
        } else {
            0
        }),
{
    let p: i8 = if positive {
        1
    } else {
        0
    };
    let n: i8 = if negative {
        1
    } else {
        0
    };
    p - n
}

/// Whether the swimmer keeps rising towards the surface: holding jump starts
/// it when the eyes are below the surface band, and it stops when jump is
/// released or the water under the band is left.
pub fn next_surface_rising(
    rising: bool,
    holding_space: bool,
    water_above_target: bool,
    water_below_target: bool,
) -> (next: bool)
    ensures
        next == if !holding_space {
            false
        } else if water_above_target {
            true
        } else if !water_below_target {
            false
        } else {
            rising
        },
{
    if !holding_space {
        false
    } else if water_above_target {
        true
    } else if !water_below_target {
        false
    } else {
        rising
    }
}

/// Sprint swimming needs sprint, no sneak, and forward input.
pub fn swim_sprinting(is_sprinting: bool, is_sneaking: bool, forward_input: i8) -> (sprinting: bool)
    ensures
        sprinting == (is_sprinting && !is_sneaking && forward_input > 0),
{
    is_sprinting && !is_sneaking && forward_input > 0
}

/// The vertical push a swimmer gets.
#[derive(Clone, Copy, Debug, PartialEq, Eq, Structural)]
pub enum SwimVertical {
    /// Sneaking: accelerate downwards.
    Sink,
    /// No vertical push.
    Hold,
    /// Deep under water while rising: full upward push.
    Rise,
    /// Near the surface while rising: gentle upward push.
    Surface,
}

pub fn swim_vertical(
    is_sneaking: bool,
    climbing_shore: bool,
    surface_rising: bool,
    deeply_submerged: bool,
) -> (vertical: SwimVertical)
    ensures
        vertical == if is_sneaking {
            SwimVertical::Sink
        } else if climbing_shore {
            SwimVertical::Hold
        } else if surface_rising {
            if deeply_submerged {
                SwimVertical::Rise
            } else {
                SwimVertical::Surface
            }
        } else {
            SwimVertical::Hold
        },
{
    if is_sneaking {
        SwimVertical::Sink
    } else if climbing_shore {
        SwimVertical::Hold
    } else if surface_rising {
        if deeply_submerged {
            SwimVertical::Rise
        } else {
            SwimVertical::Surface
        }
    } else {
        SwimVertical::Hold
    }
}

/// The walking gait that sets the target speed on land.
#[derive(Clone, Copy, Debug, PartialEq, Eq, Structural)]
pub enum Gait {
    Sneak,
    Sprint,
    Walk,
}

/// Sneaking wins over sprinting.
pub fn gait(is_sneaking: bool, is_sprinting: bool) -> (gait: Gait)
    ensures
        gait == if is_sneaking {
            Gait::Sneak
        } else if is_sprinting {
            Gait::Sprint
        } else {
            Gait::Walk
        },
{
    if is_sneaking {
        Gait::Sneak
    } else if is_sprinting {
        Gait::Sprint
    } else {
        Gait::Walk
    }
}

} // verus!
