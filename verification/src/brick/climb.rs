//! How a raised column climbs to its full offset.
//!
//! Displacing a column upwards opens a half-layer void beneath it that has to
//! be extruded once, and the bead carrying it spans its own layer plus the
//! whole climb. Asking one bead for all of it leaves the nozzle half a layer
//! clear of the surface it is laying against, so it presses nothing and the
//! extra flow spreads sideways instead of building height. Climbing costs the
//! same filament and asks no bead to span more than a quarter of a layer beyond
//! what the slicer metered it for.
//!
//! The climb starts above the bed: a layer laid on the build plate has no seam
//! under it to stagger, cannot be pressed against a surface that is not a layer,
//! and is the face of the part that shows.

use super::pass::Loop;
use super::pass::Pass;
use super::region;
use vstd::prelude::*;

verus! {

/// Layers a raised column takes to climb to its full offset, which is half a
/// layer.
pub const RAMP: usize = 2;

/// Where a loop stands on the climb, in shares of [`RAMP`] to the full offset.
#[derive(Clone, Copy, Debug, PartialEq, Eq, Structural)]
pub struct Climb {
    /// The loop's column is a raised one, so its bead spans from what the layer
    /// below left to where this one ends. Any other bead spans its own layer.
    pub raised: bool,
    /// What the loop takes of this layer's offset.
    pub rise: usize,
    /// What the column was left standing at of the offset of the layer below.
    pub below: usize,
    /// The walls of this layer take the flow they are to be metered at. Those
    /// laid on the build plate do not: a bead there is pressed by the plate
    /// rather than by the layer under it, so surplus flow spreads sideways
    /// instead of filling anything.
    pub flows: bool,
}

/// What a column that has stood for some layers takes of its offset.
pub open spec fn share(steps: int) -> int {
    if steps < RAMP {
        steps
    } else {
        RAMP as int
    }
}

/// Where a loop stands on the climb, `up` layers above its object's first.
pub open spec fn climb_of(current: Loop, up: int) -> Climb {
    Climb {
        raised: current.raised,
        rise: if current.raised && !current.capped {
            share(current.steps as int) as usize
        } else {
            0
        },
        below: if current.raised && current.steps > 0 {
            share(current.steps - 1) as usize
        } else {
            0
        },
        flows: up > 0,
    }
}

/// No bead is asked to span more than one share of the climb beyond its own
/// layer.
pub proof fn a_bead_climbs_one_share_at_most(current: Loop, up: int)
    ensures
        climb_of(current, up).rise <= climb_of(current, up).below + 1,
        climb_of(current, up).rise <= RAMP,
        climb_of(current, up).below <= RAMP,
{
}

/// A column that begins on this layer is laid on the plane, whatever its place
/// in the stack.
pub proof fn a_new_column_starts_on_the_plane(current: Loop, up: int)
    requires
        current.steps == 0,
    ensures
        climb_of(current, up).rise == 0,
        climb_of(current, up).below == 0,
{
}

/// A column that has climbed all the way stays there: its beads take the same
/// share as those of the layer below.
pub proof fn a_climbed_column_stays_up(current: Loop, up: int)
    requires
        current.raised,
        !current.capped,
        current.steps > RAMP,
    ensures
        climb_of(current, up).rise == climb_of(current, up).below == RAMP,
{
}

impl<'a> Pass<'a> {
    /// Where a loop stands on the climb.
    pub fn climb(&self, k: usize) -> (climb: Climb)
        requires
            k < self.loops@.len(),
        ensures
            climb == climb_of(
                self.loops@[k as int],
                region::layers_up(self.survey.object_starts@, self.state.layer as int),
            ),
    {
        let current = self.loops[k];
        let rise = if !current.raised || current.capped {
            0
        } else if current.steps < RAMP {
            current.steps
        } else {
            RAMP
        };
        let below = if !current.raised || current.steps == 0 {
            0
        } else if current.steps - 1 < RAMP {
            current.steps - 1
        } else {
            RAMP
        };
        Climb { raised: current.raised, rise, below, flows: self.steps() > 0 }
    }
}

} // verus!
