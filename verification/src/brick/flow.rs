//! The flow a layer's walls are metered at.
//!
//! It compensates for a wall being laid against a staggered seam rather than a
//! flat plane, where the nozzle cannot press the corner between two beads
//! closed. It follows each layer's own height, so what is set is the slope and
//! the geometry says where on it a layer sits. The arithmetic of that happens
//! outside; what is settled here is which of its answers a printer can act on.

use super::pass::Config;
use crate::double::Double;
use vstd::prelude::*;

verus! {

/// The slope the flow is derived at: what was asked for, held to its range, and
/// the shipped one where that is not a finite number.
pub open spec fn held_slope(extra: Double, low: Double, high: Double, shipped: Double) -> Double {
    if !extra.finite() {
        shipped
    } else if extra.below(low) {
        low
    } else if high.below(extra) {
        high
    } else {
        extra
    }
}

/// Holds the slope to its range. One that is not a number would otherwise put
/// that into an `E` word.
pub fn slope(extra: Double, low: Double, high: Double, shipped: Double) -> (held: Double)
    ensures
        held == held_slope(extra, low, high, shipped),
{
    if !extra.is_finite() {
        shipped
    } else if extra.is_below(low) {
        low
    } else if high.is_below(extra) {
        high
    } else {
        extra
    }
}

/// What the arithmetic makes of one layer's geometry.
#[derive(Clone, Copy, Debug)]
pub struct Geometry {
    pub height: Double,
    /// The width the walls are laid at, where it is known.
    pub width: Option<Double>,
    /// Centre to centre distance of two beads of that width.
    pub spacing: Double,
    /// The flow the slope asks for at that geometry.
    pub asked: Double,
    /// The most flow a bead of that geometry can be metered at before it
    /// swallows its neighbour.
    pub ceiling: Double,
    /// The flow of the profile every measurement was taken on.
    pub reference: Double,
    /// A flow of one, which is what the slicer metered.
    pub sliced: Double,
}

/// A layer's height, the width of its walls and their spacing are all lengths.
pub open spec fn can_be_laid(geometry: Geometry) -> bool {
    &&& geometry.height.height()
    &&& geometry.width is Some
    &&& geometry.width->0.height()
    &&& geometry.spacing.height()
}

/// The flow the geometry of a layer asks for: between what was sliced and the
/// ceiling, and that of the reference profile where a bead cannot have such a
/// geometry.
pub open spec fn flow_of(geometry: Geometry) -> Double {
    if can_be_laid(geometry) {
        geometry.asked.lesser(geometry.ceiling).greater(geometry.sliced)
    } else {
        geometry.reference
    }
}

/// The flow the geometry of a layer asks for.
pub fn derived(geometry: &Geometry) -> (flow: Double)
    ensures
        flow == flow_of(*geometry),
{
    let wide = match geometry.width {
        Some(width) => width.is_a_height(),
        None => false,
    };
    if wide && geometry.height.is_a_height() && geometry.spacing.is_a_height() {
        geometry.asked.min(geometry.ceiling).max(geometry.sliced)
    } else {
        geometry.reference
    }
}

/// No geometry is metered at less than what was sliced, and none that leaves
/// room above that at more than its ceiling.
pub proof fn a_flow_lies_between_what_was_sliced_and_the_ceiling(geometry: Geometry)
    requires
        can_be_laid(geometry),
        geometry.asked.number(),
        geometry.ceiling.number(),
        geometry.sliced.number(),
    ensures
        !flow_of(geometry).below(geometry.sliced),
        !geometry.ceiling.below(geometry.sliced) ==> !geometry.ceiling.below(flow_of(geometry)),
{
}

/// Where nothing extra is asked for, the walls are metered as they were sliced,
/// whatever their geometry.
pub proof fn no_extra_flow_meters_the_walls_as_sliced(geometry: Geometry)
    requires
        geometry.sliced.number(),
        geometry.asked == geometry.sliced,
        geometry.reference == geometry.sliced,
    ensures
        flow_of(geometry) == geometry.sliced,
{
}

/// The slope is always one a printer can act on.
pub proof fn a_slope_is_a_number_in_its_range(
    extra: Double,
    low: Double,
    high: Double,
    shipped: Double,
)
    requires
        low.finite(),
        high.finite(),
        shipped.finite(),
        !high.below(low),
        !shipped.below(low),
        !high.below(shipped),
    ensures
        held_slope(extra, low, high, shipped).finite(),
        !held_slope(extra, low, high, shipped).below(low),
        !high.below(held_slope(extra, low, high, shipped)),
{
}

impl Config {
    /// The flow a layer's walls are metered at: the one a caller pinned, and
    /// otherwise the one derived from the layer's own geometry.
    pub fn flow_at(&self, geometry: &Geometry) -> (flow: Double)
        ensures
            flow == match self.wall_flow {
                Some(pinned) => pinned,
                None => flow_of(*geometry),
            },
    {
        match self.wall_flow {
            Some(pinned) => pinned,
            None => derived(geometry),
        }
    }
}

} // verus!
