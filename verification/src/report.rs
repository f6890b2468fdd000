//! What a run goes by, and what it tells the user.

use crate::brick::pass::Config;
use crate::double::Double;
use crate::error::Error;
use crate::scan::Survey;
use crate::slicer::Settings;
use crate::slicer::WallOrder;
use crate::text;
use vstd::prelude::*;
use vstd::string::*;

verus! {

/// The file has been through this tool before, and nobody asked for it to be
/// done again.
pub fn refusal(survey: &Survey, force: bool, path: String) -> (error: Option<Error>)
    ensures
        error is Some == (survey.bricked && !force),
        error matches Some(error) ==> {
            &&& error matches Error::AlreadyProcessed { path: named }
            &&& named@ == path@
        },
{
    if survey.bricked && !force {
        Some(Error::AlreadyProcessed { path })
    } else {
        None
    }
}

/// The heights and widths that are known of a file, in mm.
#[derive(Clone, Copy, Debug)]
pub struct Known {
    /// Layer height the slicer exported.
    pub slicer_height: Option<Double>,
    /// Layer height the file states in its metadata.
    pub file_height: Option<Double>,
    /// Width of the internal walls the slicer exported.
    pub slicer_width: Option<Double>,
    /// Width of the internal walls the file states in its metadata.
    pub file_width: Option<Double>,
    /// Width of the internal walls the settings in its G-code state.
    pub survey_width: Option<Double>,
}

/// The first of two values that is there.
pub open spec fn first(a: Option<Double>, b: Option<Double>) -> Option<Double> {
    if a is Some {
        a
    } else {
        b
    }
}

fn first_of(a: Option<Double>, b: Option<Double>) -> (value: Option<Double>)
    ensures
        value == first(a, b),
{
    if a.is_some() {
        a
    } else {
        b
    }
}

/// Fills in what the file and the slicer know: the layer height, and which end
/// of a wall the loop numbering starts from.
///
/// A nominal height says what the slicer was asked for, not what each layer came
/// out at, so it cannot stand in for a file that measures several heights.
pub fn resolve(config: Config, slicer: &Settings, known: Known, survey: &Survey) -> (resolved:
    Config)
    ensures
        resolved == (Config {
            layer_height: if survey.layer_heights@.len() > 0 {
                None
            } else {
                first(known.slicer_height, known.file_height)
            },
            external_perimeters_first: match slicer.wall_order {
                Some(order) => order == WallOrder::ExternalFirst,
                None => survey.wall_order == Some(WallOrder::ExternalFirst),
            },
            wall_width: first(first(known.slicer_width, known.file_width), known.survey_width),
            ..config
        }),
{
    let order = match slicer.wall_order {
        Some(order) => Some(order),
        None => survey.wall_order,
    };
    Config {
        layer_height: if survey.variable_layers() {
            None
        } else {
            first_of(known.slicer_height, known.file_height)
        },
        external_perimeters_first: match order {
            Some(order) => order == WallOrder::ExternalFirst,
            None => false,
        },
        wall_width: first_of(
            first_of(known.slicer_width, known.file_width),
            known.survey_width,
        ),
        ..config
    }
}

/// A slicer setting under which the transform quietly does nothing, or the
/// wrong thing.
#[derive(Clone, Copy, Debug, PartialEq, Eq, Structural)]
pub enum Warning {
    /// Spiral vase mode prints one continuously rising wall, so there are no
    /// layer boundaries to interlock.
    SpiralVase,
    /// Fewer than two walls per region leave no internal perimeter behind the
    /// visible one, so there is nothing to raise.
    FewWalls(u32),
}

/// What there is to warn about in the settings a slicer exported.
pub fn warnings(slicer: &Settings) -> (found: Vec<Warning>)
    ensures
        found@ == (if slicer.spiral_vase == Some(true) {
            seq![Warning::SpiralVase]
        } else {
            seq![]
        }) + (match slicer.walls {
            Some(walls) => if walls < 2 {
                seq![Warning::FewWalls(walls)]
            } else {
                seq![]
            },
            None => seq![],
        }),
{
    let mut found: Vec<Warning> = Vec::new();
    match slicer.spiral_vase {
        Some(on) => {
            if on {
                found.push(Warning::SpiralVase);
            }
        },
        None => {},
    }
    match slicer.walls {
        Some(walls) => {
            if walls < 2 {
                found.push(Warning::FewWalls(walls));
            }
        },
        None => {},
    }
    assert(found@ =~= (if slicer.spiral_vase == Some(true) {
        seq![Warning::SpiralVase]
    } else {
        seq![]
    }) + (match slicer.walls {
        Some(walls) => if walls < 2 {
            seq![Warning::FewWalls(walls)]
        } else {
            seq![]
        },
        None => seq![],
    }));
    found
}

/// Whether a step this tool leaves standing is large next to the nozzle laying
/// the layer above it. `quarter` is a quarter of the nozzle's width.
///
/// The stagger is half a layer, so the step grows with the layer height while
/// the nozzle that has to clear it does not. Nothing here can be done about it
/// without giving up the stagger, so it is said rather than acted on.
pub fn is_steep(raise: Option<(Double, Double)>, nozzle: Option<Double>, quarter: Double) -> (steep:
    bool)
    ensures
        steep == (nozzle is Some && Double { bits: 0 }.below(nozzle->0) && raise is Some
            && quarter.below((raise->0).1)),
{
    match (nozzle, raise) {
        (Some(nozzle), Some((_, step))) => Double::zero().is_below(nozzle) && quarter.is_below(
            step,
        ),
        _ => false,
    }
}

/// A range with one more value in it.
pub fn widened(range: Option<(Double, Double)>, value: Double) -> (wider: Option<
    (Double, Double),
>)
    ensures
        wider == Some(
            match range {
                Some((low, high)) => (low.lesser(value), high.greater(value)),
                None => (value, value),
            },
        ),
{
    match range {
        Some((low, high)) => Some((low.min(value), high.max(value))),
        None => Some((value, value)),
    }
}

/// How far loops were raised, as one figure or as the range an adaptive slice
/// covers, given both ends written out. A single number is what a file whose
/// layers vary cannot honestly report, and reading one is what sends a user
/// looking for a bug.
pub fn raised_by(low: &str, high: &str) -> (said: String)
    ensures
        said@ == if low@ == high@ {
            low@ + " mm"@
        } else {
            low@ + " to "@ + high@ + " mm"@
        },
{
    let mut said = String::from_str(low);
    if !text::same(low, high) {
        said.append(" to ");
        said.append(high);
    }
    said.append(" mm");
    said
}

/// What the flow the walls were metered at is called: one figure, or the range
/// an adaptive slice covers, since it follows each layer's own height. A
/// modifier is named too, or the figure looks like the geometry's own answer
/// when it is not.
pub fn applied(flow: Option<(&str, &str)>, extra: Option<&str>) -> (said: String)
    ensures
        said@ == match flow {
            None => "the flow"@,
            Some((low, high)) => {
                let figure = if low@ == high@ {
                    "a flow of "@ + low@
                } else {
                    "a flow of "@ + low@ + " to "@ + high@
                };
                match extra {
                    Some(percent) => figure + " (--extra-flow "@ + percent@ + "%)"@,
                    None => figure,
                }
            },
        },
{
    let (low, high) = match flow {
        Some(range) => range,
        None => {
            return String::from_str("the flow");
        },
    };
    let mut said = String::from_str("a flow of ");
    said.append(low);
    if !text::same(low, high) {
        said.append(" to ");
        said.append(high);
    }
    match extra {
        Some(percent) => {
            said.append(" (--extra-flow ");
            said.append(percent);
            said.append("%)");
        },
        None => {},
    }
    said
}

/// Why a figure given on the command line is refused.
#[derive(Clone, Copy, Debug, PartialEq, Eq, Structural)]
pub enum Refusal {
    NotANumber,
    NotFinite,
    Outside,
}

/// Holds a figure to its range. It ends up as extruded plastic, so a value that
/// is not a finite number inside its range is refused before any work starts
/// rather than written into the G-code.
pub fn within(number: Option<Double>, low: Double, high: Double) -> (held: Result<Double, Refusal>)
    requires
        low.number(),
        high.number(),
    ensures
        held == match number {
            None => Err(Refusal::NotANumber),
            Some(number) => if !number.finite() {
                Err(Refusal::NotFinite)
            } else if number.below(low) || high.below(number) {
                Err(Refusal::Outside)
            } else {
                Ok(number)
            },
        },
{
    match number {
        None => Err(Refusal::NotANumber),
        Some(number) => if !number.is_finite() {
            Err(Refusal::NotFinite)
        } else if number.is_below(low) || high.is_below(number) {
            Err(Refusal::Outside)
        } else {
            Ok(number)
        },
    }
}

} // verus!
