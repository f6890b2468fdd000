//! Settings the slicer hands to a post-processing script.
//!
//! PrusaSlicer, SuperSlicer, OrcaSlicer and Bambu Studio all export their whole
//! print configuration as `SLIC3R_<OPTION>` before running the script, so the
//! settings a file was sliced with are readable without parsing the file.
//! Bambu renamed many options when it forked PrusaSlicer, so each one is looked
//! up under both spellings.

use crate::text;
use vstd::prelude::*;
use vstd::string::*;

verus! {

/// The order a region's walls are printed in, which decides whether the first
/// internal perimeter loop of a layer is the one against the external wall.
#[derive(Clone, Copy, Debug, PartialEq, Eq, Structural)]
pub enum WallOrder {
    ExternalFirst,
    InternalFirst,
}

/// The values a slicer exported, by the option each stands for. One that was
/// not exported is `None`.
#[derive(Clone, Debug, Default)]
pub struct Exported {
    pub layer_height: Option<String>,
    pub first_layer_height: Option<String>,
    pub initial_layer_print_height: Option<String>,
    pub external_perimeters_first: Option<String>,
    pub wall_sequence: Option<String>,
    pub perimeters: Option<String>,
    pub wall_loops: Option<String>,
    pub spiral_vase: Option<String>,
    pub spiral_mode: Option<String>,
    pub arc_fitting: Option<String>,
    pub enable_arc_fitting: Option<String>,
    pub perimeter_extrusion_width: Option<String>,
    pub inner_wall_line_width: Option<String>,
    pub nozzle_diameter: Option<String>,
    pub pp_output_name: Option<String>,
}

/// Everything the environment told us. Every field is `None` when the tool was
/// run by hand rather than by a slicer.
#[derive(Clone, Debug, Default)]
pub struct Settings {
    /// As it was exported; only a value that is a height counts.
    pub layer_height: Option<String>,
    /// Slicers print the first layer thicker than the rest by default, so the
    /// bricking of that layer has a different gap to fill. As it was exported.
    pub first_layer_height: Option<String>,
    pub wall_order: Option<WallOrder>,
    /// Walls per region, external one included.
    pub walls: Option<u32>,
    pub spiral_vase: Option<bool>,
    /// Arc fitting emits extrusions as `G2`/`G3`, which neither transform can
    /// reshape.
    pub arc_fitting: Option<bool>,
    /// Width the internal perimeters were metered at, as it was exported: in mm,
    /// or as a share of the nozzle.
    pub wall_width: Option<String>,
    /// Nozzle diameter, as it was exported.
    pub nozzle: Option<String>,
    /// Where the slicer will finally put the file. Post-processing scripts are
    /// handed a temporary path, so this is the only name the user recognises.
    pub output_name: Option<String>,
}

/// An exported value without the white space around it. A blank one counts as
/// not exported.
pub open spec fn stated(value: Option<String>) -> Option<Seq<u8>> {
    match value {
        Some(value) => {
            let inner = text::trim(text::bytes(value@));
            if inner.len() == 0 {
                None
            } else {
                Some(inner)
            }
        },
        None => None,
    }
}

/// The first of two options that is stated.
pub open spec fn either(first: Option<String>, second: Option<String>) -> Option<Seq<u8>> {
    match stated(first) {
        Some(value) => Some(value),
        None => stated(second),
    }
}

/// Slic3r serialises booleans as `0` and `1`.
pub open spec fn truth(value: Seq<u8>) -> Option<bool> {
    if text::same_fold(value, text::bytes("1"@)) || text::same_fold(value, text::bytes("true"@)) {
        Some(true)
    } else if text::same_fold(value, text::bytes("0"@)) || text::same_fold(
        value,
        text::bytes("false"@),
    ) {
        Some(false)
    } else {
        None
    }
}

/// PrusaSlicer states the order as a flag; Orca names it, as in
/// `outer wall/inner wall`.
pub open spec fn order(value: Seq<u8>) -> WallOrder {
    let external_first = match truth(value) {
        Some(first) => first,
        None => text::at_fold(value, 0, text::bytes("outer"@)),
    };
    if external_first {
        WallOrder::ExternalFirst
    } else {
        WallOrder::InternalFirst
    }
}

/// PrusaSlicer names a mode of arc fitting, `disabled` when it is off; Orca
/// states a flag.
pub open spec fn fits_arcs(value: Seq<u8>) -> bool {
    match truth(value) {
        Some(on) => on,
        None => !text::same_fold(value, text::bytes("disabled"@)),
    }
}

/// The number a run of digits spells.
pub open spec fn spelled(digits: Seq<u8>) -> nat
    decreases digits.len(),
{
    if digits.len() == 0 {
        0
    } else {
        (10 * spelled(digits.drop_last()) + (digits.last() - 0x30)) as nat
    }
}

/// A number's text without the plus sign it may start with.
pub open spec fn unsigned(value: Seq<u8>) -> Seq<u8> {
    if value.len() > 0 && value[0] == 0x2b {
        value.skip(1)
    } else {
        value
    }
}

/// There is nothing but digits.
pub open spec fn all_digits(digits: Seq<u8>) -> bool {
    forall|i: int| 0 <= i < digits.len() ==> text::digit(#[trigger] digits[i])
}

/// A whole number: digits alone, with a plus sign before them or not, that fit
/// thirty-two bits.
pub open spec fn whole(value: Seq<u8>) -> Option<u32> {
    let digits = unsigned(value);
    if digits.len() > 0 && all_digits(digits) && spelled(digits) <= u32::MAX {
        Some(spelled(digits) as u32)
    } else {
        None
    }
}

proof fn lemma_spelled_grows(digits: Seq<u8>, count: int)
    requires
        0 <= count <= digits.len(),
        all_digits(digits),
    ensures
        spelled(digits.take(count)) <= spelled(digits),
    decreases digits.len() - count,
{
    if count < digits.len() {
        let next = digits.take(count + 1);
        assert(next.drop_last() =~= digits.take(count));
        assert(next.last() == digits[count]);
        lemma_spelled_grows(digits, count + 1);
    } else {
        assert(digits.take(count) =~= digits);
    }
}

/// Reads a whole number.
pub fn parse_whole(value: &[u8]) -> (number: Option<u32>)
    ensures
        number == whole(value@),
{
    let start: usize = if value.len() > 0 && value[0] == 0x2b {
        1
    } else {
        0
    };
    if start == value.len() {
        return None;
    }
    let ghost digits = unsigned(value@);
    assert(digits =~= value@.skip(start as int));
    let mut number: u32 = 0;
    let mut at = start;
    assert(digits.take(0) =~= seq![]);
    while at < value.len()
        invariant
            start <= at <= value.len(),
            start < value.len(),
            digits == unsigned(value@),
            digits == value@.skip(start as int),
            forall|i: int| 0 <= i < at - start ==> text::digit(#[trigger] digits[i]),
            number == spelled(digits.take(at - start)),
        decreases value.len() - at,
    {
        let byte = value[at];
        let ghost next = digits.take(at + 1 - start);
        assert(next.drop_last() =~= digits.take(at - start));
        assert(byte == digits[at - start]);
        assert(next.last() == byte);
        if byte < 0x30 || byte > 0x39 {
            assert(!text::digit(digits[at - start]));
            return None;
        }
        let digit = (byte - 0x30) as u32;
        if number > 429496729 || (number == 429496729 && digit > 5) {
            proof {
                assert(spelled(next) > u32::MAX);
                if all_digits(digits) {
                    lemma_spelled_grows(digits, at + 1 - start);
                }
            }
            return None;
        }
        number = 10 * number + digit;
        at = at + 1;
    }
    assert(digits.take(digits.len() as int) =~= digits);
    Some(number)
}

/// Slic3r serialises booleans as `0` and `1`.
pub fn flag(value: &str) -> (state: Option<bool>)
    ensures
        state == truth(text::bytes(value@)),
{
    let raw = value.as_bytes();
    if text::equals_fold(raw, "1".as_bytes()) || text::equals_fold(raw, "true".as_bytes()) {
        Some(true)
    } else if text::equals_fold(raw, "0".as_bytes()) || text::equals_fold(
        raw,
        "false".as_bytes(),
    ) {
        Some(false)
    } else {
        None
    }
}

/// PrusaSlicer's `external_perimeters_first` is a flag; Orca's `wall_sequence`
/// names the order instead, as in `outer wall/inner wall`.
pub fn wall_order(value: &str) -> (sequence: WallOrder)
    ensures
        sequence == order(text::bytes(value@)),
{
    let external_first = match flag(value) {
        Some(first) => first,
        None => text::stands_at(value.as_bytes(), 0, "outer".as_bytes()),
    };
    if external_first {
        WallOrder::ExternalFirst
    } else {
        WallOrder::InternalFirst
    }
}

/// PrusaSlicer's `arc_fitting` names a mode and is `disabled` when off; Orca's
/// `enable_arc_fitting` is a flag.
pub fn arc_fitting(value: &str) -> (on: bool)
    ensures
        on == fits_arcs(text::bytes(value@)),
{
    match flag(value) {
        Some(on) => on,
        None => !text::equals_fold(value.as_bytes(), "disabled".as_bytes()),
    }
}

/// An exported value without the white space around it, unless it is blank.
fn get(value: &Option<String>) -> (inner: Option<&str>)
    ensures
        inner is Some == stated(*value) is Some,
        inner is Some ==> text::bytes(inner->0@) == stated(*value)->0,
{
    match value {
        Some(value) => {
            let inner = text::trimmed(value.as_str());
            if inner.as_bytes().len() == 0 {
                None
            } else {
                Some(inner)
            }
        },
        None => None,
    }
}

fn get_either<'a>(first: &'a Option<String>, second: &'a Option<String>) -> (inner: Option<&'a str>)
    ensures
        inner is Some == either(*first, *second) is Some,
        inner is Some ==> text::bytes(inner->0@) == either(*first, *second)->0,
{
    match get(first) {
        Some(inner) => Some(inner),
        None => get(second),
    }
}

/// A text by its bytes, where there is one.
pub open spec fn told(value: Option<String>) -> Option<Seq<u8>> {
    match value {
        Some(value) => Some(text::bytes(value@)),
        None => None,
    }
}

fn owned(value: Option<&str>) -> (kept: Option<String>)
    ensures
        kept is Some == value is Some,
        kept is Some ==> kept->0@ == value->0@,
{
    match value {
        Some(value) => Some(value.to_owned()),
        None => None,
    }
}

/// The value of a variable, from `at` on, in the order the environment has it.
pub open spec fn named(
    environment: Seq<(String, String)>,
    name: Seq<char>,
    at: int,
) -> Option<Seq<char>>
    decreases environment.len() - at,
{
    if !(0 <= at < environment.len()) {
        None
    } else if environment[at].0@ == name {
        Some(environment[at].1@)
    } else {
        named(environment, name, at + 1)
    }
}

/// A text by its characters, where there is one.
pub open spec fn given(value: Option<String>) -> Option<Seq<char>> {
    match value {
        Some(value) => Some(value@),
        None => None,
    }
}

fn value(environment: &Vec<(String, String)>, name: &str) -> (found: Option<String>)
    ensures
        given(found) == named(environment@, name@, 0),
{
    let mut at: usize = 0;
    while at < environment.len()
        invariant
            at <= environment@.len(),
            named(environment@, name@, 0) == named(environment@, name@, at as int),
        decreases environment@.len() - at,
    {
        if text::same(environment[at].0.as_str(), name) {
            return Some(environment[at].1.as_str().to_owned());
        }
        at = at + 1;
    }
    None
}

impl Exported {
    /// Picks what a slicer exports out of an environment: every option under its
    /// name in capitals, behind `SLIC3R_`.
    pub fn of(environment: &Vec<(String, String)>) -> (exported: Self)
        ensures
            given(exported.layer_height) == named(environment@, "SLIC3R_LAYER_HEIGHT"@, 0),
            given(exported.first_layer_height) == named(environment@, "SLIC3R_FIRST_LAYER_HEIGHT"@, 0),
            given(exported.initial_layer_print_height) == named(environment@, "SLIC3R_INITIAL_LAYER_PRINT_HEIGHT"@, 0),
            given(exported.external_perimeters_first) == named(environment@, "SLIC3R_EXTERNAL_PERIMETERS_FIRST"@, 0),
            given(exported.wall_sequence) == named(environment@, "SLIC3R_WALL_SEQUENCE"@, 0),
            given(exported.perimeters) == named(environment@, "SLIC3R_PERIMETERS"@, 0),
            given(exported.wall_loops) == named(environment@, "SLIC3R_WALL_LOOPS"@, 0),
            given(exported.spiral_vase) == named(environment@, "SLIC3R_SPIRAL_VASE"@, 0),
            given(exported.spiral_mode) == named(environment@, "SLIC3R_SPIRAL_MODE"@, 0),
            given(exported.arc_fitting) == named(environment@, "SLIC3R_ARC_FITTING"@, 0),
            given(exported.enable_arc_fitting) == named(environment@, "SLIC3R_ENABLE_ARC_FITTING"@, 0),
            given(exported.perimeter_extrusion_width) == named(environment@, "SLIC3R_PERIMETER_EXTRUSION_WIDTH"@, 0),
            given(exported.inner_wall_line_width) == named(environment@, "SLIC3R_INNER_WALL_LINE_WIDTH"@, 0),
            given(exported.nozzle_diameter) == named(environment@, "SLIC3R_NOZZLE_DIAMETER"@, 0),
            given(exported.pp_output_name) == named(environment@, "SLIC3R_PP_OUTPUT_NAME"@, 0),
    {
        Exported {
            layer_height: value(environment, "SLIC3R_LAYER_HEIGHT"),
            first_layer_height: value(environment, "SLIC3R_FIRST_LAYER_HEIGHT"),
            initial_layer_print_height: value(environment, "SLIC3R_INITIAL_LAYER_PRINT_HEIGHT"),
            external_perimeters_first: value(environment, "SLIC3R_EXTERNAL_PERIMETERS_FIRST"),
            wall_sequence: value(environment, "SLIC3R_WALL_SEQUENCE"),
            perimeters: value(environment, "SLIC3R_PERIMETERS"),
            wall_loops: value(environment, "SLIC3R_WALL_LOOPS"),
            spiral_vase: value(environment, "SLIC3R_SPIRAL_VASE"),
            spiral_mode: value(environment, "SLIC3R_SPIRAL_MODE"),
            arc_fitting: value(environment, "SLIC3R_ARC_FITTING"),
            enable_arc_fitting: value(environment, "SLIC3R_ENABLE_ARC_FITTING"),
            perimeter_extrusion_width: value(environment, "SLIC3R_PERIMETER_EXTRUSION_WIDTH"),
            inner_wall_line_width: value(environment, "SLIC3R_INNER_WALL_LINE_WIDTH"),
            nozzle_diameter: value(environment, "SLIC3R_NOZZLE_DIAMETER"),
            pp_output_name: value(environment, "SLIC3R_PP_OUTPUT_NAME"),
        }
    }
}

impl Settings {
    /// Reads the settings out of what a slicer exported.
    pub fn read(exported: &Exported) -> (settings: Self)
        ensures
            told(settings.layer_height) == stated(exported.layer_height),
            told(settings.first_layer_height) == either(
                exported.first_layer_height,
                exported.initial_layer_print_height,
            ),
            settings.wall_order == match either(
                exported.external_perimeters_first,
                exported.wall_sequence,
            ) {
                Some(value) => Some(order(value)),
                None => None,
            },
            settings.walls == match either(exported.perimeters, exported.wall_loops) {
                Some(value) => whole(value),
                None => None,
            },
            settings.spiral_vase == match either(exported.spiral_vase, exported.spiral_mode) {
                Some(value) => truth(value),
                None => None,
            },
            settings.arc_fitting == match either(
                exported.arc_fitting,
                exported.enable_arc_fitting,
            ) {
                Some(value) => Some(fits_arcs(value)),
                None => None,
            },
            told(settings.wall_width) == either(
                exported.perimeter_extrusion_width,
                exported.inner_wall_line_width,
            ),
            told(settings.nozzle) == stated(exported.nozzle_diameter),
            told(settings.output_name) == stated(exported.pp_output_name),
    {
        Settings {
            layer_height: owned(get(&exported.layer_height)),
            first_layer_height: owned(
                get_either(&exported.first_layer_height, &exported.initial_layer_print_height),
            ),
            wall_order: match get_either(
                &exported.external_perimeters_first,
                &exported.wall_sequence,
            ) {
                Some(value) => Some(wall_order(value)),
                None => None,
            },
            walls: match get_either(&exported.perimeters, &exported.wall_loops) {
                Some(value) => parse_whole(value.as_bytes()),
                None => None,
            },
            spiral_vase: match get_either(&exported.spiral_vase, &exported.spiral_mode) {
                Some(value) => flag(value),
                None => None,
            },
            arc_fitting: match get_either(&exported.arc_fitting, &exported.enable_arc_fitting) {
                Some(value) => Some(arc_fitting(value)),
                None => None,
            },
            wall_width: owned(
                get_either(&exported.perimeter_extrusion_width, &exported.inner_wall_line_width),
            ),
            nozzle: owned(get(&exported.nozzle_diameter)),
            output_name: owned(get(&exported.pp_output_name)),
        }
    }
}

/// An environment that exports nothing says nothing.
pub proof fn an_empty_environment_says_nothing()
    ensures
        stated(None) is None,
        either(None, None) is None,
{
}

} // verus!
