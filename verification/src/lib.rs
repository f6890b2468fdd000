//! Post-processes sliced G-code so that layers interlock instead of stacking
//! as independent flat sheets, which is where FDM prints are weakest.
//!
//! [`brick`] raises every other internal perimeter loop by half a layer
//! height, staggering the seams between loops.
//!
//! What is decided here is decided on text, on integers and on the order of
//! measurements; the measurements themselves are taken outside and handed in as
//! [`double::Double`] values.

pub mod bgcode;
pub mod brick;
pub mod double;
pub mod error;
pub mod feature;
pub mod footprint;
pub mod gcode;
pub mod grammar;
pub mod moved;
pub mod report;
pub mod rewritten;
pub mod scan;
pub mod slicer;
pub mod source;
pub mod surveyed;
pub mod text;
pub mod wording;

pub use error::Error;
pub use source::Source;
