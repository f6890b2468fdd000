//! Brick layering.
//!
//! Inside every perimeter region the loops are numbered and every other one is
//! raised by half a layer height. Adjacent loops then bond across a staggered
//! seam instead of stacking their weak points on top of each other, the same
//! way courses of bricks are offset.
//!
//! One region covers an island's outer wall, the walls of every hole in it and
//! whatever fragments a thin wall broke into, so the numbering restarts at each
//! contour. Otherwise a contour that gained or lost a loop would invert the
//! stagger of every contour printed after it.
//!
//! The visible wall takes part: it is metered at the same flow as the loops
//! behind it, it anchors the alternation running through the whole stack, and
//! each closed loop of it is drawn inward by half the width it gains so its
//! commanded outer face lands where the slicer drew it. Only what is not a wall
//! is left alone — the top and bottom surfaces, the infill, and the whole of the
//! layer laid on the build plate.
//!
//! A [`Pass`] is fed a line at a time. It buffers one region, and when the
//! region has to be written it is closed, grouped, numbered, marked and then
//! turned into a schedule, in that order.

pub mod climb;
pub mod flow;
pub mod laid;
pub mod number;
pub mod ordered;
pub mod pass;
pub mod region;
pub mod rules;
pub mod schedule;
pub mod stamp;
pub mod taken;
pub mod walls;

pub use pass::Buffered;
pub use pass::Loop;
pub use pass::Pass;
