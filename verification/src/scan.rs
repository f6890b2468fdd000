//! A single pre-pass that collects everything the transform needs to know
//! about a file before rewriting it.
//!
//! Nothing here keeps the G-code itself, only a handful of counters, so the
//! pass runs over a stream of any length.
//!
//! The pass is fed a line at a time together with the [`Measures`] taken of it,
//! and says what it knows so far as its [`Progress`].

use crate::double::Double;
use crate::double::INFINITE;
use crate::feature;
use crate::feature::Feature;
use crate::footprint;
use crate::footprint::Cells;
use crate::gcode;
use crate::gcode::Code;
use crate::gcode::Extruder;
use crate::gcode::Line;
use crate::gcode::Word;
use crate::slicer;
use crate::slicer::WallOrder;
use crate::text;
use vstd::prelude::*;
use vstd::slice::*;
use vstd::string::*;

verus! {

/// A Z step has to be more than this many thousandths of a millimetre to count
/// towards the layer height.
pub const LEAST_STEP: i64 = 10;

/// Comment left on the lines this tool inserts. Repeating the transform
/// compounds it, so a run recognises its own earlier work by these.
pub fn brick_stamp() -> (stamp: &'static str)
    ensures
        stamp@ == "bricklayers brick "@,
{
    "bricklayers brick "
}

/// What has been measured of one line. A figure counts only where the line
/// carries what it is about.
pub struct Measures<'a> {
    /// The number a `layer_height` setting states, where it states one.
    pub height: Option<Double>,
    /// How far the open layer's floor is above the layer before it.
    pub rise: Double,
    pub x: Double,
    pub y: Double,
    pub z: Double,
    pub e: Double,
    pub f: Double,
    /// How far the `E` word is past where the input stream stands.
    pub fed: Double,
    /// How far the `Z` word is above where the nozzle stands, in thousandths of
    /// a millimetre.
    pub step: i64,
    /// The places of the grid the move passes through.
    pub path: &'a [(i32, i32)],
}

/// The value of a word, where the line has it.
pub open spec fn value(word: Option<Word>, measured: Double) -> Option<Double> {
    if word is Some {
        Some(measured)
    } else {
        None
    }
}

fn value_of(word: &Option<Word>, measured: Double) -> (read: Option<Double>)
    ensures
        read == value(*word, measured),
{
    match word {
        Some(_) => Some(measured),
        None => None,
    }
}

/// What a line that holds nothing but a comment tells the pass.
pub enum Note {
    /// A layer starts here.
    Layer,
    /// A region starts here.
    Region(Feature),
    /// The layer height is stated.
    Height,
    /// The order of the walls is stated.
    Order(WallOrder),
    /// The width of the visible wall is stated.
    Skin,
    /// The width of the hidden walls is stated.
    Wall,
    /// The diameter of the nozzle is stated.
    Nozzle,
    Nothing,
}

/// The value of the setting a bare comment states.
pub open spec fn setting_value(marker: Seq<u8>) -> Seq<u8> {
    match text::split_setting(marker) {
        Some((_, value)) => value,
        None => seq![],
    }
}

/// What the text of a bare comment tells.
pub open spec fn note_of(marker: Seq<u8>) -> Note {
    if feature::changes_layer(marker) {
        Note::Layer
    } else {
        match feature::marked(marker) {
            Some(region) => Note::Region(region),
            None => match text::split_setting(marker) {
                Some((key, value)) => if text::same_fold(key, text::bytes("layer_height"@)) {
                    Note::Height
                } else if text::same_fold(key, text::bytes("wall_sequence"@)) || text::same_fold(
                    key,
                    text::bytes("external_perimeters_first"@),
                ) {
                    Note::Order(slicer::order(value))
                } else if text::same_fold(
                    key,
                    text::bytes("external_perimeter_extrusion_width"@),
                ) || text::same_fold(key, text::bytes("outer_wall_line_width"@)) {
                    Note::Skin
                } else if text::same_fold(key, text::bytes("perimeter_extrusion_width"@))
                    || text::same_fold(key, text::bytes("inner_wall_line_width"@)) {
                    Note::Wall
                } else if text::same_fold(key, text::bytes("nozzle_diameter"@)) {
                    Note::Nozzle
                } else {
                    Note::Nothing
                },
                None => Note::Nothing,
            },
        }
    }
}

/// Reads what the text of a bare comment tells, and the value it states.
fn note<'a>(marker: &'a str) -> (told: (Note, &'a [u8]))
    ensures
        told.0 == note_of(text::bytes(marker@)),
        told.0 is Skin || told.0 is Wall || told.0 is Nozzle ==> told.1@ == setting_value(
            text::bytes(marker@),
        ),
{
    let whole = marker.as_bytes();
    if feature::is_layer_marker(marker) {
        return (Note::Layer, whole);
    }
    match Feature::from_marker(marker) {
        Some(region) => {
            return (Note::Region(region), whole);
        },
        None => {},
    }
    match text::setting(marker) {
        Some((key, value)) => {
            let name = key.as_bytes();
            let note = if text::equals_fold(name, "layer_height".as_bytes()) {
                Note::Height
            } else if text::equals_fold(name, "wall_sequence".as_bytes()) || text::equals_fold(
                name,
                "external_perimeters_first".as_bytes(),
            ) {
                Note::Order(slicer::wall_order(value))
            } else if text::equals_fold(name, "external_perimeter_extrusion_width".as_bytes())
                || text::equals_fold(name, "outer_wall_line_width".as_bytes()) {
                Note::Skin
            } else if text::equals_fold(name, "perimeter_extrusion_width".as_bytes())
                || text::equals_fold(name, "inner_wall_line_width".as_bytes()) {
                Note::Wall
            } else if text::equals_fold(name, "nozzle_diameter".as_bytes()) {
                Note::Nozzle
            } else {
                Note::Nothing
            };
            (note, value.as_bytes())
        },
        None => (Note::Nothing, whole),
    }
}

/// The text of the layer height a bare comment states.
pub fn stated_height(marker: &str) -> (height: Option<&str>)
    ensures
        height is Some == note_of(text::bytes(marker@)) is Height,
        height is Some ==> text::bytes(height->0@) == (text::split_setting(
            text::bytes(marker@),
        )->0).1,
{
    match note(marker).0 {
        Note::Height => match text::setting(marker) {
            Some((_, value)) => Some(value),
            None => None,
        },
        _ => None,
    }
}

/// The line carries a comment that this tool leaves on its own work.
pub open spec fn stamped(raw: Seq<u8>) -> bool {
    let body = gcode::body_of(raw);
    &&& body.len() < raw.len()
    &&& text::bytes("bricklayers brick "@).is_prefix_of(
        text::trim_start(raw.skip(body.len() as int + 1)),
    )
}

/// How a width is stated.
pub enum Width {
    /// In mm.
    Length,
    /// As a percentage of the nozzle.
    Share,
}

/// How a width is stated, and the text of its number: one that ends in `%` is a
/// share of the nozzle.
pub open spec fn width_of(stated: Seq<u8>) -> (Width, Seq<u8>) {
    if stated.len() > 0 && stated.last() == 0x25 {
        (Width::Share, text::trim(stated.drop_last()))
    } else {
        (Width::Length, stated)
    }
}

/// Tells a width in mm from one that is a share of the nozzle.
pub fn width(stated: &[u8]) -> (told: (Width, &[u8]))
    ensures
        told.0 == width_of(stated@).0,
        told.1@ == width_of(stated@).1,
{
    let length = stated.len();
    if length > 0 && stated[length - 1] == 0x25 {
        let number = slice_subrange(stated, 0, length - 1);
        assert(number@ =~= stated@.drop_last());
        let start = text::skip_space(number, 0);
        let end = text::drop_space(number, start, number.len());
        (Width::Share, slice_subrange(number, start, end))
    } else {
        (Width::Length, stated)
    }
}

/// Everything the pass knows so far.
#[verifier::ext_equal]
pub struct Progress {
    pub layers: nat,
    pub declared_height: Option<Double>,
    pub wall_order: Option<WallOrder>,
    /// Distinct upward Z steps and how often each was seen, so the commonest
    /// one can stand in for a layer height the file never states.
    pub z_steps: Seq<(i64, usize)>,
    pub z_feedrate: Option<Double>,
    /// The first width stated for the visible wall and for the hidden ones, and
    /// the first nozzle diameter, each as it was written.
    pub skin_width: Option<Seq<u8>>,
    pub wall_width: Option<Seq<u8>>,
    pub nozzle: Option<Seq<u8>>,
    pub bricked: bool,
    pub arc_extrusions: nat,
    pub feature: Feature,
    pub current_z: Double,
    /// Lowest Z of the layer being read, and of the one before it. A Z-hop
    /// only ever raises the nozzle, so the lowest Z of a layer is the layer's
    /// own height and comparing those is what tells a return to the bed apart
    /// from a hop.
    pub layer_floor: Option<Double>,
    pub previous_floor: Option<Double>,
    /// Index of the layer whose Z is being collected. `None` before the first
    /// layer marker, since a start G-code that lifts the nozzle to prime is
    /// not a layer.
    pub open_layer: Option<usize>,
    /// Height measured for each layer so far, indexed by layer.
    pub layer_heights: Seq<Double>,
    /// Layers at which the print went back down to start another object.
    pub object_starts: Seq<usize>,
    /// Last layer seen to extrude an internal perimeter, and what that stood
    /// at when the open layer began. An object start is only recognised once
    /// the layer that returned to the bed has been read, so the snapshot is
    /// what the object before it topped out at.
    pub last_wall_layer: Option<usize>,
    pub wall_top_at_open: Option<usize>,
    pub object_tops: Seq<usize>,
    /// Where the nozzle stands.
    pub at: (Double, Double),
    pub extruder: Extruder,
    /// Cells the open layer's internal perimeters run through, and the same
    /// for the layer below it.
    pub here: Set<u32>,
    pub below: Set<u32>,
    /// Index of the layer `below` describes.
    pub below_layer: Option<usize>,
    pub uncovered: Seq<Set<u32>>,
    pub unsupported: Seq<Set<u32>>,
}

/// Answers by layer, with one more kept. Nothing is kept of a layer with no
/// cells to its name.
pub open spec fn kept(into: Seq<Set<u32>>, layer: int, cells: Set<u32>) -> Seq<Set<u32>> {
    if cells == Set::<u32>::empty() {
        into
    } else {
        let length = if into.len() <= layer {
            layer + 1
        } else {
            into.len() as int
        };
        Seq::new(
            length as nat,
            |i: int|
                if i == layer {
                    cells
                } else if i < into.len() {
                    into[i]
                } else {
                    Set::<u32>::empty()
                },
        )
    }
}

/// The pass once the cells of the open layer have been settled against the
/// layer below it: a cell of the lower layer that the upper one does not hold
/// has nothing standing on it, and a cell of the upper one that the lower does
/// not hold is a column that starts here.
pub open spec fn footprint_closed(p: Progress) -> Progress {
    match p.open_layer {
        None => p,
        Some(index) => Progress {
            uncovered: match p.below_layer {
                Some(below) => kept(p.uncovered, below as int, p.below.difference(p.here)),
                None => p.uncovered,
            },
            unsupported: kept(p.unsupported, index as int, p.here.difference(p.below)),
            below: p.here,
            here: Set::empty(),
            below_layer: Some(index),
            ..p
        },
    }
}

/// The nozzle went back down: the layer just read is lower than the one before.
pub open spec fn dropped(p: Progress) -> bool {
    p.layer_floor is Some && p.previous_floor is Some && p.layer_floor->0.below(p.previous_floor->0)
}

/// Heights by layer, with one more measured. A layer that was not holds zero.
pub open spec fn measured(heights: Seq<Double>, layer: int, height: Double) -> Seq<Double> {
    let length = if heights.len() <= layer {
        layer + 1
    } else {
        heights.len() as int
    };
    Seq::new(
        length as nat,
        |i: int|
            if i == layer {
                height
            } else if i < heights.len() {
                heights[i]
            } else {
                Double { bits: 0 }
            },
    )
}

/// The pass once the layer just read has been finished. A layer stands on the
/// one below it, so its own height is how far the plane rose. The first layer
/// of an object stands on the bed instead, and a drop is what says another
/// object just started.
pub open spec fn layer_closed(before: Progress, rise: Double) -> Progress {
    let p = footprint_closed(before);
    let emptied = Progress { layer_floor: None, ..p };
    match (p.open_layer, p.layer_floor) {
        (Some(index), Some(floor)) => {
            let height = if p.previous_floor is Some && !dropped(p) {
                rise
            } else {
                floor
            };
            Progress {
                layer_heights: measured(p.layer_heights, index as int, height),
                object_starts: if dropped(p) {
                    p.object_starts.push(index)
                } else {
                    p.object_starts
                },
                object_tops: if dropped(p) {
                    p.object_tops.push(
                        match p.wall_top_at_open {
                            Some(top) => top,
                            None => if index > 0 {
                                (index - 1) as usize
                            } else {
                                0
                            },
                        },
                    )
                } else {
                    p.object_tops
                },
                previous_floor: Some(floor),
                ..emptied
            }
        },
        _ => emptied,
    }
}

/// The pass once a line that holds nothing but a comment has been read.
pub open spec fn noted(p: Progress, note: Note, stated: Seq<u8>, m: Measures) -> Progress {
    match note {
        Note::Layer => {
            let closed = layer_closed(
                Progress { layers: p.layers + 1, feature: Feature::Other, ..p },
                m.rise,
            );
            Progress {
                open_layer: Some(p.layers as usize),
                wall_top_at_open: closed.last_wall_layer,
                ..closed
            }
        },
        Note::Region(region) => Progress { feature: region, ..p },
        Note::Height => Progress {
            declared_height: if p.declared_height is Some {
                p.declared_height
            } else {
                m.height
            },
            ..p
        },
        Note::Order(order) => Progress {
            wall_order: if p.wall_order is Some {
                p.wall_order
            } else {
                Some(order)
            },
            ..p
        },
        Note::Skin => Progress { skin_width: Some(first_text(p.skin_width, stated)), ..p },
        Note::Wall => Progress { wall_width: Some(first_text(p.wall_width, stated)), ..p },
        Note::Nozzle => Progress { nozzle: Some(first_text(p.nozzle, stated)), ..p },
        Note::Nothing => p,
    }
}

/// The text that was stated first.
pub open spec fn first_text(before: Option<Seq<u8>>, stated: Seq<u8>) -> Seq<u8> {
    match before {
        Some(text) => text,
        None => stated,
    }
}

/// The extruder once a command has been read, before any filament it asks for.
pub open spec fn told_extruder(extruder: Extruder, code: Code, e: Option<Double>) -> Extruder {
    if code == Code::AbsoluteE {
        Extruder { absolute: true, ..extruder }
    } else if code == Code::RelativeE {
        Extruder { absolute: false, ..extruder }
    } else if code == Code::SetPosition && e is Some {
        Extruder { input: e->0, output: e->0, ..extruder }
    } else {
        extruder
    }
}

/// The value is above zero.
pub open spec fn positive(value: Double) -> bool {
    Double { bits: 0 }.below(value)
}

/// How often each Z step was seen, with one more seen. A new one goes last.
pub open spec fn counted(steps: Seq<(i64, usize)>, step: i64) -> Seq<(i64, usize)> {
    let at = step_at(steps, step, 0);
    if at < steps.len() {
        steps.update(at, (step, (steps[at].1 + 1) as usize))
    } else {
        steps.push((step, 1))
    }
}

/// Where a Z step stands among those seen, and past the end where it does not.
pub open spec fn step_at(steps: Seq<(i64, usize)>, step: i64, from: int) -> int
    decreases steps.len() - from,
{
    if from >= steps.len() || steps[from].0 == step {
        from
    } else {
        step_at(steps, step, from + 1)
    }
}

/// How many Z steps were seen in all.
pub open spec fn total(steps: Seq<(i64, usize)>) -> nat
    decreases steps.len(),
{
    if steps.len() == 0 {
        0
    } else {
        total(steps.drop_last()) + steps.last().1 as nat
    }
}

/// The pass once a linear move has changed the height of the nozzle, or not.
///
/// A move that only changes Z is the slicer driving the axis on its own terms,
/// so its feedrate is one this machine is known to accept: the slowest counts,
/// once printing has begun.
pub open spec fn climbed(p: Progress, line: Line, m: Measures) -> Progress {
    let z = value(line.z, m.z);
    let f = value(line.f, m.f);
    let driven = p.open_layer is Some && z is Some && !line.has_xy && f is Some && positive(f->0);
    let climbs = z is Some && !z->0.same(p.current_z);
    Progress {
        z_feedrate: if driven {
            Some(
                match p.z_feedrate {
                    Some(slowest) => slowest.lesser(f->0),
                    None => f->0,
                },
            )
        } else {
            p.z_feedrate
        },
        z_steps: if climbs && m.step > LEAST_STEP {
            counted(p.z_steps, m.step)
        } else {
            p.z_steps
        },
        current_z: if climbs {
            z->0
        } else {
            p.current_z
        },
        layer_floor: if z is Some {
            Some(
                match p.layer_floor {
                    Some(floor) => floor.lesser(z->0),
                    None => z->0,
                },
            )
        } else {
            p.layer_floor
        },
        ..p
    }
}

/// The filament a line asks for, and where that leaves the extruder.
pub open spec fn asked(extruder: Extruder, e: Option<Double>, fed: Double) -> (Double, Extruder) {
    match e {
        Some(e) => if extruder.absolute {
            (fed, Extruder { input: e, ..extruder })
        } else {
            (e, extruder)
        },
        None => (Double { bits: 0 }, extruder),
    }
}

/// A move or an arc lays a bead: it asks for filament and names both axes of the
/// plane.
pub open spec fn extrudes(extruder: Extruder, line: Line, m: Measures) -> bool {
    let (delta, _) = asked(extruder, value(line.e, m.e), m.fed);
    positive(delta) && line.x is Some && line.y is Some
}

/// The pass once a move or an arc has been read. What it extrudes inside an
/// internal perimeter is a wall, and where it does so in the plane of an open
/// layer it is traced.
pub open spec fn drawn(p: Progress, line: Line, m: Measures) -> Progress {
    let e = value(line.e, m.e);
    let (delta, extruder) = asked(p.extruder, e, m.fed);
    let extrudes = extrudes(p.extruder, line, m);
    let internal = p.feature == Feature::InternalPerimeter;
    let lays = e is Some && positive(e->0);
    let arc = line.code == Code::Arc;
    let wall = internal && (extrudes || (lays && (arc || line.has_xy)));
    let after = Progress {
        at: (
            if line.x is Some {
                m.x
            } else {
                p.at.0
            },
            if line.y is Some {
                m.y
            } else {
                p.at.1
            },
        ),
        extruder,
        last_wall_layer: if wall {
            p.open_layer
        } else {
            p.last_wall_layer
        },
        here: if internal && extrudes && p.open_layer is Some {
            p.here + footprint::visited(m.path@, None).to_set()
        } else {
            p.here
        },
        arc_extrusions: if arc && internal && lays {
            p.arc_extrusions + 1
        } else {
            p.arc_extrusions
        },
        ..p
    };
    if arc {
        after
    } else {
        climbed(after, line, m)
    }
}

/// The pass once a command has been read.
pub open spec fn commanded(p: Progress, line: Line, m: Measures) -> Progress {
    let told = Progress {
        extruder: told_extruder(p.extruder, line.code, value(line.e, m.e)),
        ..p
    };
    if line.code == Code::Move || line.code == Code::Arc {
        drawn(told, line, m)
    } else {
        told
    }
}

/// The pass once a line has been read.
pub open spec fn fed(before: Progress, line: Line, m: Measures) -> Progress {
    let raw = text::bytes(line.raw@);
    let p = Progress { bricked: before.bricked || stamped(raw), ..before };
    match gcode::marker_of(raw) {
        Some(marker) => noted(p, note_of(marker), setting_value(marker), m),
        None => commanded(p, line, m),
    }
}

/// What a pass knows before it starts.
pub open spec fn fresh() -> Progress {
    Progress {
        layers: 0,
        declared_height: None,
        wall_order: None,
        z_steps: seq![],
        z_feedrate: None,
        skin_width: None,
        wall_width: None,
        nozzle: None,
        bricked: false,
        arc_extrusions: 0,
        feature: Feature::Other,
        current_z: Double { bits: 0 },
        layer_floor: None,
        previous_floor: None,
        open_layer: None,
        layer_heights: seq![],
        object_starts: seq![],
        last_wall_layer: None,
        wall_top_at_open: None,
        object_tops: seq![],
        at: (Double { bits: 0 }, Double { bits: 0 }),
        extruder: Extruder {
            absolute: true,
            input: Double { bits: 0 },
            output: Double { bits: 0 },
        },
        here: Set::empty(),
        below: Set::empty(),
        below_layer: None,
        uncovered: seq![],
        unsupported: seq![],
    }
}

/// A text by its bytes, where there is one.
pub open spec fn view_of(text: Option<Vec<u8>>) -> Option<Seq<u8>> {
    match text {
        Some(text) => Some(text@),
        None => None,
    }
}

/// Sets of cells by what they hold.
pub open spec fn sets(cells: Seq<Cells>) -> Seq<Set<u32>> {
    Seq::new(cells.len(), |i: int| cells[i]@)
}

/// Every set can be searched.
pub open spec fn all_settled(cells: Seq<Cells>) -> bool {
    forall|i: int| 0 <= i < cells.len() ==> (#[trigger] cells[i]).settled()
}

/// Every Z step that is counted is one a layer could be.
pub open spec fn real_steps(steps: Seq<(i64, usize)>) -> bool {
    forall|i: int| 0 <= i < steps.len() ==> (#[trigger] steps[i]).0 > LEAST_STEP
}

/// Layers and counts that every pass keeps in step.
pub open spec fn coherent(p: Progress) -> bool {
    &&& real_steps(p.z_steps)
    &&& p.layers <= usize::MAX
    &&& p.arc_extrusions <= usize::MAX
    &&& total(p.z_steps) <= usize::MAX
    &&& match p.open_layer {
        Some(open) => open + 1 == p.layers,
        None => p.layers == 0 && p.previous_floor is None && p.below_layer is None,
    }
    &&& p.below_layer is Some ==> p.below_layer->0 < p.open_layer->0
    &&& p.last_wall_layer is Some ==> p.open_layer is Some && p.last_wall_layer->0
        <= p.open_layer->0
    &&& p.wall_top_at_open is Some ==> p.open_layer is Some && p.wall_top_at_open->0
        < p.open_layer->0
    &&& p.previous_floor is Some ==> p.open_layer->0 >= 1
    &&& p.object_tops.len() == p.object_starts.len()
    &&& forall|i: int|
        0 <= i < p.object_starts.len() ==> 1 <= #[trigger] p.object_starts[i] < p.open_layer->0
    &&& forall|i: int, j: int|
        0 <= i < j < p.object_starts.len() ==> p.object_starts[i] < p.object_starts[j]
    &&& forall|i: int|
        0 <= i < p.object_tops.len() ==> #[trigger] p.object_tops[i] < p.object_starts[i]
    &&& p.object_starts.len() > 0 ==> p.open_layer is Some
    &&& p.layer_heights.len() <= p.layers
    &&& p.uncovered.len() <= p.layers
    &&& p.unsupported.len() <= p.layers
}

/// The pass over a file.
pub struct Scan {
    layers: usize,
    declared_height: Option<Double>,
    wall_order: Option<WallOrder>,
    z_steps: Vec<(i64, usize)>,
    /// How many Z steps were seen in all.
    steps: usize,
    z_feedrate: Option<Double>,
    skin_width: Option<Vec<u8>>,
    wall_width: Option<Vec<u8>>,
    nozzle: Option<Vec<u8>>,
    bricked: bool,
    arc_extrusions: usize,
    feature: Feature,
    current_z: Double,
    layer_floor: Option<Double>,
    previous_floor: Option<Double>,
    open_layer: Option<usize>,
    layer_heights: Vec<Double>,
    object_starts: Vec<usize>,
    last_wall_layer: Option<usize>,
    wall_top_at_open: Option<usize>,
    object_tops: Vec<usize>,
    at: (Double, Double),
    extruder: Extruder,
    here: Cells,
    below: Cells,
    below_layer: Option<usize>,
    uncovered: Vec<Cells>,
    unsupported: Vec<Cells>,
}

impl View for Scan {
    type V = Progress;

    closed spec fn view(&self) -> Progress {
        Progress {
            layers: self.layers as nat,
            declared_height: self.declared_height,
            wall_order: self.wall_order,
            z_steps: self.z_steps@,
            z_feedrate: self.z_feedrate,
            skin_width: view_of(self.skin_width),
            wall_width: view_of(self.wall_width),
            nozzle: view_of(self.nozzle),
            bricked: self.bricked,
            arc_extrusions: self.arc_extrusions as nat,
            feature: self.feature,
            current_z: self.current_z,
            layer_floor: self.layer_floor,
            previous_floor: self.previous_floor,
            open_layer: self.open_layer,
            layer_heights: self.layer_heights@,
            object_starts: self.object_starts@,
            last_wall_layer: self.last_wall_layer,
            wall_top_at_open: self.wall_top_at_open,
            object_tops: self.object_tops@,
            at: self.at,
            extruder: self.extruder,
            here: self.here@,
            below: self.below@,
            below_layer: self.below_layer,
            uncovered: sets(self.uncovered@),
            unsupported: sets(self.unsupported@),
        }
    }
}

proof fn lemma_total_push(steps: Seq<(i64, usize)>, last: (i64, usize))
    ensures
        total(steps.push(last)) == total(steps) + last.1,
{
    assert(steps.push(last).drop_last() =~= steps);
}

proof fn lemma_total_update(steps: Seq<(i64, usize)>, at: int, step: (i64, usize))
    requires
        0 <= at < steps.len(),
    ensures
        total(steps.update(at, step)) == total(steps) - steps[at].1 + step.1,
        steps[at].1 <= total(steps),
    decreases steps.len(),
{
    let after = steps.update(at, step);
    if at == steps.len() - 1 {
        assert(after.drop_last() =~= steps.drop_last());
    } else {
        lemma_total_update(steps.drop_last(), at, step);
        assert(after.drop_last() =~= steps.drop_last().update(at, step));
    }
}

proof fn lemma_step_at(steps: Seq<(i64, usize)>, step: i64, from: int)
    requires
        0 <= from <= steps.len(),
    ensures
        from <= step_at(steps, step, from) <= steps.len(),
        step_at(steps, step, from) < steps.len() ==> steps[step_at(steps, step, from)].0 == step,
    decreases steps.len() - from,
{
    if from < steps.len() && steps[from].0 != step {
        lemma_step_at(steps, step, from + 1);
    }
}

/// Seeing one more Z step makes the total one more.
pub proof fn lemma_counted(steps: Seq<(i64, usize)>, step: i64)
    requires
        total(steps) < usize::MAX,
    ensures
        total(counted(steps, step)) == total(steps) + 1,
{
    lemma_step_at(steps, step, 0);
    let at = step_at(steps, step, 0);
    if at < steps.len() {
        lemma_total_update(steps, at, (step, (steps[at].1 + 1) as usize));
    } else {
        lemma_total_push(steps, (step, 1));
    }
}

impl Scan {
    pub closed spec fn valid(self) -> bool {
        &&& coherent(self@)
        &&& self.steps == total(self.z_steps@)
        &&& self.below.settled()
        &&& all_settled(self.uncovered@)
        &&& all_settled(self.unsupported@)
    }

    /// There is room to count one more of everything.
    pub open spec fn roomy(self) -> bool {
        &&& self@.layers < usize::MAX
        &&& self@.arc_extrusions < usize::MAX
        &&& total(self@.z_steps) < usize::MAX
    }

    pub fn new() -> (scan: Self)
        ensures
            scan.valid(),
            scan@ == fresh(),
    {
        let scan = Scan {
            layers: 0,
            declared_height: None,
            wall_order: None,
            z_steps: Vec::new(),
            steps: 0,
            z_feedrate: None,
            skin_width: None,
            wall_width: None,
            nozzle: None,
            bricked: false,
            arc_extrusions: 0,
            feature: Feature::Other,
            current_z: Double::zero(),
            layer_floor: None,
            previous_floor: None,
            open_layer: None,
            layer_heights: Vec::new(),
            object_starts: Vec::new(),
            last_wall_layer: None,
            wall_top_at_open: None,
            object_tops: Vec::new(),
            at: (Double::zero(), Double::zero()),
            extruder: Extruder::new(),
            here: Cells::new(),
            below: Cells::new(),
            below_layer: None,
            uncovered: Vec::new(),
            unsupported: Vec::new(),
        };
        assert(scan@ =~= fresh());
        scan
    }

    /// Whether there is room to count one more of everything.
    pub fn has_room(&self) -> (room: bool)
        requires
            self.valid(),
        ensures
            room == self.roomy(),
    {
        self.layers < usize::MAX && self.arc_extrusions < usize::MAX && self.steps < usize::MAX
    }

    /// Where the nozzle stands.
    pub fn place(&self) -> (at: (Double, Double))
        ensures
            at == self@.at,
    {
        self.at
    }

    /// The height the nozzle stands at.
    pub fn height(&self) -> (z: Double)
        ensures
            z == self@.current_z,
    {
        self.current_z
    }

    /// Where the input stream of the extruder stands.
    pub fn filament(&self) -> (input: Double)
        ensures
            input == self@.extruder.input,
    {
        self.extruder.input
    }

    /// The floors of the open layer and of the one before it.
    pub fn floors(&self) -> (floors: (Option<Double>, Option<Double>))
        ensures
            floors == (self@.layer_floor, self@.previous_floor),
    {
        (self.layer_floor, self.previous_floor)
    }

    /// Reads one line, with what has been measured of it.
    pub fn feed(&mut self, line: &Line, m: &Measures)
        requires
            old(self).valid(),
            old(self).roomy(),
            *line == gcode::reading(line.raw, true),
        ensures
            final(self).valid(),
            final(self)@ == fed(old(self)@, *line, *m),
    {
        let ghost before = self@;
        let raw = line.raw.as_bytes();
        assert(raw@.len() == raw.len());
        match line.comment() {
            Some(comment) => {
                // A stamp rides the Z move it was written beside, so this cannot
                // be folded into the marker handling below.
                let bytes = comment.as_bytes();
                let at = text::skip_space(bytes, 0);
                let said = slice_subrange(bytes, at, bytes.len());
                assert(said@ =~= text::trim_start(bytes@));
                if text::starts_with(said, brick_stamp().as_bytes()) {
                    self.bricked = true;
                }
            },
            None => {},
        }
        proof {
            text::lemma_find(raw@, 0x3b, 0, raw@.len() as int);
            assert(self@ =~= Progress {
                bricked: before.bricked || stamped(raw@),
                ..before
            });
        }
        match line.marker() {
            Some(marker) => {
                let (told, stated) = note(marker);
                self.take_note(told, stated, m);
                proof {
                    lemma_stated_aside(
                        Progress { bricked: before.bricked || stamped(raw@), ..before },
                        note_of(text::bytes(marker@)),
                        stated@,
                        setting_value(text::bytes(marker@)),
                        *m,
                    );
                }
            },
            None => {
                self.command(line, m);
            },
        }
    }

    fn take_note(&mut self, note: Note, stated: &[u8], m: &Measures)
        requires
            old(self).valid(),
            old(self).roomy(),
        ensures
            final(self).valid(),
            final(self)@ == noted(old(self)@, note, stated@, *m),
    {
        let ghost p = self@;
        match note {
            Note::Layer => {
                let index = self.layers;
                self.feature = Feature::Other;
                proof {
                    let q = Progress { feature: Feature::Other, ..p };
                    assert(self@ =~= q);
                    lemma_layers_aside(q, (p.layers + 1) as nat, m.rise);
                }
                self.close_layer(m.rise);
                self.layers = index + 1;
                self.open_layer = Some(index);
                self.wall_top_at_open = self.last_wall_layer;
                assert(self@ =~= noted(p, note, stated@, *m));
            },
            Note::Region(region) => {
                self.feature = region;
                assert(self@ =~= noted(p, note, stated@, *m));
            },
            Note::Height => {
                if self.declared_height.is_none() {
                    self.declared_height = m.height;
                }
                assert(self@ =~= noted(p, note, stated@, *m));
            },
            Note::Order(order) => {
                if self.wall_order.is_none() {
                    self.wall_order = Some(order);
                }
                assert(self@ =~= noted(p, note, stated@, *m));
            },
            Note::Skin => {
                if self.skin_width.is_none() {
                    self.skin_width = Some(slice_to_vec(stated));
                }
                assert(self@ =~= noted(p, note, stated@, *m));
            },
            Note::Wall => {
                if self.wall_width.is_none() {
                    self.wall_width = Some(slice_to_vec(stated));
                }
                assert(self@ =~= noted(p, note, stated@, *m));
            },
            Note::Nozzle => {
                if self.nozzle.is_none() {
                    self.nozzle = Some(slice_to_vec(stated));
                }
                assert(self@ =~= noted(p, note, stated@, *m));
            },
            Note::Nothing => {},
        }
    }

    fn command(&mut self, line: &Line, m: &Measures)
        requires
            old(self).valid(),
            old(self).roomy(),
        ensures
            final(self).valid(),
            final(self)@ == commanded(old(self)@, *line, *m),
    {
        let ghost p = self@;
        match line.code {
            Code::AbsoluteE | Code::RelativeE => {
                self.extruder.set_mode(line.code);
            },
            // A `G92` moves the origin rather than the filament, so it is not
            // an extrusion and must not be booked as one.
            Code::SetPosition => match line.e {
                Some(_) => {
                    self.extruder.set_position(m.e);
                },
                None => {},
            },
            _ => {},
        }
        assert(self@ =~= Progress {
            extruder: told_extruder(p.extruder, line.code, value(line.e, m.e)),
            ..p
        });
        if line.draws() {
            self.draw(line, m);
        }
    }

    fn draw(&mut self, line: &Line, m: &Measures)
        requires
            old(self).valid(),
            old(self).roomy(),
            line.code == Code::Move || line.code == Code::Arc,
        ensures
            final(self).valid(),
            final(self)@ == drawn(old(self)@, *line, *m),
    {
        let ghost p = self@;
        let zero = Double::zero();
        // A slicer names only the axes that change, so where a move starts is
        // wherever the last one left off.
        if line.x.is_some() {
            self.at.0 = m.x;
        }
        if line.y.is_some() {
            self.at.1 = m.y;
        }
        let e = value_of(&line.e, m.e);
        let delta = match e {
            Some(e) => self.extruder.observe(e, m.fed),
            None => zero,
        };
        let lays = match e {
            Some(e) => zero.is_below(e),
            None => false,
        };
        // The same test the rewrite uses to open a loop, so every cell it will
        // ask about is one this pass has already drawn.
        let extrudes = zero.is_below(delta) && line.xy().is_some();
        let internal = self.feature == Feature::InternalPerimeter;
        let arc = line.code == Code::Arc;
        if internal && (extrudes || (lays && (arc || line.has_xy))) {
            self.last_wall_layer = self.open_layer;
        }
        if internal && extrudes && self.open_layer.is_some() {
            self.here.draw(m.path);
        }
        if arc {
            if internal && lays {
                self.arc_extrusions = self.arc_extrusions + 1;
            }
            assert(self@ =~= drawn(p, *line, *m));
            return;
        }
        let ghost q = self@;
        self.climb(line, m);
        assert(q =~= (Progress {
            z_feedrate: p.z_feedrate,
            z_steps: p.z_steps,
            current_z: p.current_z,
            layer_floor: p.layer_floor,
            ..q
        }));
        assert(self@ =~= drawn(p, *line, *m));
    }

    fn climb(&mut self, line: &Line, m: &Measures)
        requires
            old(self).valid(),
            old(self).roomy(),
            line.code == Code::Move,
        ensures
            final(self).valid(),
            final(self)@ == climbed(old(self)@, *line, *m),
    {
        let ghost p = self@;
        let zero = Double::zero();
        let z = match line.z {
            Some(_) => m.z,
            None => {
                assert(self@ =~= climbed(p, *line, *m));
                return;
            },
        };
        // Only once printing has begun. Start G-code lowers the bed and probes
        // it at a deliberate crawl, and taking the slowest rate in the file
        // would hand that crawl to every raise in the print.
        if self.open_layer.is_some() && !line.is_xy_move() && line.f.is_some() && zero.is_below(
            m.f,
        ) {
            self.z_feedrate = Some(
                match self.z_feedrate {
                    Some(slowest) => slowest.min(m.f),
                    None => m.f,
                },
            );
        }
        if !z.is_same(self.current_z) {
            if m.step > LEAST_STEP {
                self.count_step(m.step);
            }
            self.current_z = z;
        }
        self.layer_floor = Some(
            match self.layer_floor {
                Some(floor) => floor.min(z),
                None => z,
            },
        );
        assert(self@ =~= climbed(p, *line, *m));
    }

    fn count_step(&mut self, step: i64)
        requires
            old(self).valid(),
            old(self).roomy(),
            step > LEAST_STEP,
        ensures
            final(self).valid(),
            final(self)@ == (Progress {
                z_steps: counted(old(self)@.z_steps, step),
                ..old(self)@
            }),
    {
        let ghost p = self@;
        let ghost steps = self.z_steps@;
        proof {
            lemma_counted(steps, step);
            lemma_step_at(steps, step, 0);
        }
        let mut at: usize = 0;
        while at < self.z_steps.len() && self.z_steps[at].0 != step
            invariant
                *self == *old(self),
                steps == self.z_steps@,
                at <= self.z_steps.len(),
                step_at(steps, step, 0) == step_at(steps, step, at as int),
            decreases self.z_steps.len() - at,
        {
            at = at + 1;
        }
        self.steps = self.steps + 1;
        if at < self.z_steps.len() {
            let count = self.z_steps[at].1;
            proof {
                lemma_total_update(steps, at as int, (step, count));
            }
            self.z_steps.set(at, (step, count + 1));
        } else {
            self.z_steps.push((step, 1));
        }
        assert(self@ =~= Progress { z_steps: counted(steps, step), ..p });
    }

    /// Settles the layer that has just been read against the one below it.
    fn close_footprint(&mut self)
        requires
            old(self).valid(),
        ensures
            final(self)@ == footprint_closed(old(self)@),
            final(self).steps == old(self).steps,
            final(self).below.settled(),
            all_settled(final(self).uncovered@),
            all_settled(final(self).unsupported@),
    {
        let ghost p = self@;
        let index = match self.open_layer {
            Some(index) => index,
            None => {
                return;
            },
        };
        self.here.settle();
        match self.below_layer {
            Some(below) => {
                let left = self.below.without(&self.here);
                keep(&mut self.uncovered, below, left);
            },
            None => {},
        }
        // The mirror: a cell this layer holds that the one below does not is a
        // column starting here, whose first bead has no seam under it to sit
        // on. At the first layer `below` is empty, so all of it starts here.
        let fresh = self.here.without(&self.below);
        keep(&mut self.unsupported, index, fresh);
        // Swapped rather than handed over, so the buffer the layer below used
        // is the one this layer fills.
        std::mem::swap(&mut self.below, &mut self.here);
        self.here.clear();
        self.below_layer = Some(index);
        assert(self@ =~= footprint_closed(p));
    }

    /// Finishes the layer just read. A layer lower than the one before it can
    /// only mean the nozzle went back to the bed to start another object.
    fn close_layer(&mut self, rise: Double)
        requires
            old(self).valid(),
        ensures
            final(self)@ == layer_closed(old(self)@, rise),
            final(self).steps == old(self).steps,
            final(self).below.settled(),
            all_settled(final(self).uncovered@),
            all_settled(final(self).unsupported@),
    {
        let ghost before = self@;
        self.close_footprint();
        let ghost p = self@;
        let floor = self.layer_floor;
        self.layer_floor = None;
        let (index, floor) = match (self.open_layer, floor) {
            (Some(index), Some(floor)) => (index, floor),
            _ => {
                assert(self@ =~= layer_closed(before, rise));
                return;
            },
        };
        let (height, dropped) = match self.previous_floor {
            Some(previous) => {
                let dropped = floor.is_below(previous);
                (
                    if dropped {
                        floor
                    } else {
                        rise
                    },
                    dropped,
                )
            },
            None => (floor, false),
        };
        while self.layer_heights.len() <= index
            invariant
                p.layer_heights.len() <= self.layer_heights.len(),
                self.layer_heights.len() <= index + 1 || self.layer_heights.len()
                    == p.layer_heights.len(),
                forall|i: int|
                    0 <= i < self.layer_heights@.len() ==> #[trigger] self.layer_heights@[i]
                        == if i < p.layer_heights.len() {
                        p.layer_heights[i]
                    } else {
                        Double { bits: 0 }
                    },
                self@ == (Progress {
                    layer_floor: None,
                    layer_heights: self.layer_heights@,
                    ..p
                }),
                self.steps == old(self).steps,
                self.below.settled(),
                all_settled(self.uncovered@),
                all_settled(self.unsupported@),
            decreases index + 1 - self.layer_heights.len(),
        {
            let ghost steady = *self;
            self.layer_heights.push(Double::zero());
            assert(self@ =~= Progress { layer_heights: self.layer_heights@, ..steady@ });
        }
        self.layer_heights.set(index, height);
        assert(self.layer_heights@ =~= measured(p.layer_heights, index as int, height));
        if dropped {
            self.object_starts.push(index);
            // Walls this object never reached belong to the one before it, and
            // a file with no wall at all keeps the old answer: the layer below.
            let top = match self.wall_top_at_open {
                Some(top) => top,
                None => if index > 0 {
                    index - 1
                } else {
                    0
                },
            };
            self.object_tops.push(top);
        }
        self.previous_floor = Some(floor);
        assert(self@ =~= layer_closed(before, rise));
    }
}

/// What is stated matters only to a note that keeps it.
proof fn lemma_stated_aside(p: Progress, note: Note, a: Seq<u8>, b: Seq<u8>, m: Measures)
    requires
        note is Skin || note is Wall || note is Nozzle ==> a == b,
    ensures
        noted(p, note, a, m) == noted(p, note, b, m),
{
}

/// Closing a layer has nothing to do with how many have been counted.
proof fn lemma_layers_aside(p: Progress, layers: nat, rise: Double)
    ensures
        layer_closed(Progress { layers, ..p }, rise) == (Progress {
            layers,
            ..layer_closed(p, rise)
        }),
{
    assert(layer_closed(Progress { layers, ..p }, rise) =~= Progress {
        layers,
        ..layer_closed(p, rise)
    });
}

/// Keeps one layer's cells among those of the others.
fn keep(into: &mut Vec<Cells>, layer: usize, cells: Cells)
    requires
        all_settled(old(into)@),
        cells.settled(),
        layer < usize::MAX,
    ensures
        all_settled(final(into)@),
        sets(final(into)@) == kept(sets(old(into)@), layer as int, cells@),
{
    if cells.is_empty() {
        return;
    }
    let ghost before = sets(into@);
    while into.len() <= layer
        invariant
            layer < usize::MAX,
            all_settled(into@),
            before.len() <= into.len(),
            into.len() <= layer + 1 || into.len() == before.len(),
            forall|i: int|
                0 <= i < into@.len() ==> (#[trigger] into@[i])@ == if i < before.len() {
                    before[i]
                } else {
                    Set::<u32>::empty()
                },
        decreases layer + 1 - into.len(),
    {
        into.push(Cells::new());
    }
    let ghost padded = into@;
    into.set(layer, cells);
    assert(into@ == padded.update(layer as int, cells));
    assert(sets(into@) =~= kept(before, layer as int, cells@));
}

/// The layer's height says something about whether heights vary: it is a height,
/// and the layer is not the first of an object. A first layer is its own setting
/// and is routinely thicker than the rest, and every object has one.
pub open spec fn tells(p: Progress, layer: int) -> bool {
    layer != 0 && !p.object_starts.contains(layer as usize) && p.layer_heights[layer].height()
}

/// The lowest of the first `upto` layers' heights that tell.
pub open spec fn lowest_of(p: Progress, upto: int) -> Double
    decreases upto,
{
    if upto <= 0 {
        Double { bits: INFINITE }
    } else if tells(p, upto - 1) {
        lowest_of(p, upto - 1).lesser(p.layer_heights[upto - 1])
    } else {
        lowest_of(p, upto - 1)
    }
}

/// The highest of the first `upto` layers' heights that tell.
pub open spec fn highest_of(p: Progress, upto: int) -> Double
    decreases upto,
{
    if upto <= 0 {
        Double { bits: 0 }
    } else if tells(p, upto - 1) {
        highest_of(p, upto - 1).greater(p.layer_heights[upto - 1])
    } else {
        highest_of(p, upto - 1)
    }
}

/// Every height that tells lies between the lowest and the highest.
pub proof fn heights_lie_between_the_extremes(p: Progress, layer: int, upto: int)
    requires
        0 <= layer < upto <= p.layer_heights.len(),
        tells(p, layer),
    ensures
        !p.layer_heights[layer].below(lowest_of(p, upto)),
        !highest_of(p, upto).below(p.layer_heights[layer]),
    decreases upto,
{
    lemma_extremes_are_numbers(p, upto - 1);
    if layer < upto - 1 {
        heights_lie_between_the_extremes(p, layer, upto - 1);
    }
}

proof fn lemma_extremes_are_numbers(p: Progress, upto: int)
    ensures
        lowest_of(p, upto).number(),
        highest_of(p, upto).number(),
    decreases upto,
{
    if upto > 0 {
        lemma_extremes_are_numbers(p, upto - 1);
    }
}

/// The Z step seen most often, the later of two seen as often.
pub open spec fn commonest(steps: Seq<(i64, usize)>) -> Option<(i64, usize)>
    decreases steps.len(),
{
    if steps.len() == 0 {
        None
    } else {
        match commonest(steps.drop_last()) {
            Some(best) => if steps.last().1 >= best.1 {
                Some(steps.last())
            } else {
                Some(best)
            },
            None => Some(steps.last()),
        }
    }
}

proof fn lemma_commonest(steps: Seq<(i64, usize)>)
    requires
        real_steps(steps),
    ensures
        commonest(steps) matches Some((step, _)) ==> step > LEAST_STEP,
    decreases steps.len(),
{
    if steps.len() > 0 {
        let before = steps.drop_last();
        assert forall|i: int| 0 <= i < before.len() implies (#[trigger] before[i]).0
            > LEAST_STEP by {
            assert(before[i] == steps[i]);
        }
        lemma_commonest(before);
    }
}

/// Where a file's layer height comes from.
#[derive(Clone, Copy, Debug, PartialEq, Eq, Structural)]
pub enum Height {
    /// The file states it, in mm.
    Declared(Double),
    /// The commonest Z step, in thousandths of a millimetre.
    Measured(i64),
    /// The file says nothing useful.
    Fallback,
}

/// The layer height a finished pass settles on.
pub open spec fn height_of(p: Progress) -> Height {
    if p.declared_height is Some && p.declared_height->0.height() {
        Height::Declared(p.declared_height->0)
    } else {
        match commonest(p.z_steps) {
            Some((step, _)) => Height::Measured(step),
            None => Height::Fallback,
        }
    }
}

/// Number of printed layers: from the markers, or from the Z steps of a file
/// that has none, and always at least one.
pub open spec fn layers_of(p: Progress) -> nat {
    let layers = if p.layers > 0 {
        p.layers
    } else {
        total(p.z_steps)
    };
    if layers == 0 {
        1
    } else {
        layers
    }
}

/// A pass whose last layer has been closed.
pub struct Ended {
    scan: Scan,
}

impl View for Ended {
    type V = Progress;

    closed spec fn view(&self) -> Progress {
        self.scan@
    }
}

/// What holds of every pass that has ended.
pub open spec fn ended(p: Progress) -> bool {
    &&& real_steps(p.z_steps)
    &&& p.layers <= usize::MAX
    &&& total(p.z_steps) <= usize::MAX
    &&& p.below_layer is Some ==> p.below_layer->0 < p.layers
    &&& p.last_wall_layer is Some ==> p.last_wall_layer->0 < p.layers
    &&& p.object_tops.len() == p.object_starts.len()
    &&& forall|i: int|
        0 <= i < p.object_starts.len() ==> 1 <= #[trigger] p.object_starts[i] < p.layers
    &&& forall|i: int, j: int|
        0 <= i < j < p.object_starts.len() ==> p.object_starts[i] < p.object_starts[j]
    &&& forall|i: int|
        0 <= i < p.object_tops.len() ==> #[trigger] p.object_tops[i] < p.object_starts[i]
    &&& p.layer_heights.len() <= p.layers
    &&& p.uncovered.len() <= p.layers
    &&& p.unsupported.len() <= p.layers
}

impl Scan {
    /// Closes the last layer.
    pub fn end(self, rise: Double) -> (ended: Ended)
        requires
            self.valid(),
        ensures
            ended.valid(),
            ended@ == layer_closed(self@, rise),
    {
        let mut scan = self;
        scan.close_layer(rise);
        Ended { scan }
    }
}

impl Ended {
    pub closed spec fn valid(self) -> bool {
        &&& ended(self@)
        &&& self.scan.steps == total(self.scan.z_steps@)
        &&& self.scan.below.settled()
        &&& all_settled(self.scan.uncovered@)
        &&& all_settled(self.scan.unsupported@)
    }

    /// The lowest and highest layer height that tells whether they vary.
    pub fn extremes(&self) -> (extremes: (Double, Double))
        requires
            self.valid(),
        ensures
            extremes.0 == lowest_of(self@, self@.layer_heights.len() as int),
            extremes.1 == highest_of(self@, self@.layer_heights.len() as int),
    {
        let ghost p = self@;
        let heights = &self.scan.layer_heights;
        let mut lowest = Double::from_bits(INFINITE);
        let mut highest = Double::zero();
        let mut layer: usize = 0;
        while layer < heights.len()
            invariant
                layer <= heights.len(),
                p == self@,
                heights@ == p.layer_heights,
                lowest == lowest_of(p, layer as int),
                highest == highest_of(p, layer as int),
            decreases heights.len() - layer,
        {
            let height = heights[layer];
            if layer != 0 && !listed(&self.scan.object_starts, layer) && height.is_a_height() {
                lowest = lowest.min(height);
                highest = highest.max(height);
            }
            layer = layer + 1;
        }
        (lowest, highest)
    }

    /// Everything the pass has found. `varies` says whether the extremes are so
    /// far apart that no one height describes the file.
    pub fn finish(self, varies: bool) -> (survey: Survey)
        requires
            self.valid(),
        ensures
            survey.valid(),
            survey.layers == layers_of(self@),
            survey.layer_markers == (self@.layers > 0),
            survey.layer_height == height_of(self@),
            survey.layer_heights@ == if varies {
                self@.layer_heights
            } else {
                seq![]
            },
            survey.wall_order == self@.wall_order,
            survey.z_feedrate == self@.z_feedrate,
            view_of(survey.skin_width) == self@.skin_width,
            view_of(survey.wall_width) == self@.wall_width,
            view_of(survey.nozzle) == self@.nozzle,
            survey.bricked == self@.bricked,
            survey.arc_extrusions == self@.arc_extrusions,
            survey.object_starts@ == seq![0usize] + self@.object_starts,
            survey.object_tops@ == self@.object_tops.push(
                match self@.last_wall_layer {
                    Some(layer) => layer,
                    None => (layers_of(self@) - 1) as usize,
                },
            ),
            sets(survey.uncovered@) == match self@.below_layer {
                Some(below) => kept(self@.uncovered, below as int, self@.below),
                None => self@.uncovered,
            },
            sets(survey.unsupported@) == self@.unsupported,
            survey.layer_height matches Height::Measured(step) ==> step > LEAST_STEP,
            self@.layers == 0 ==> survey.uncovered@.len() == 0 && survey.unsupported@.len() == 0,
    {
        let ghost p = self@;
        proof {
            lemma_commonest(p.z_steps);
        }
        let mut scan = self.scan;
        // Nothing follows the last layer, so all of its wall is uncovered.
        match scan.below_layer {
            Some(below) => {
                let left = scan.below.take();
                keep(&mut scan.uncovered, below, left);
            },
            None => {},
        }
        let layer_markers = scan.layers > 0;
        let counted = if layer_markers {
            scan.layers
        } else {
            scan.steps
        };
        let layers: usize = if counted == 0 {
            1
        } else {
            counted
        };
        let layer_height = settled_height(scan.declared_height, &scan.z_steps);
        // Every file opens an object at its first layer.
        let mut object_starts: Vec<usize> = vec![0];
        object_starts.append(&mut scan.object_starts);
        assert(object_starts@ =~= seq![0usize] + p.object_starts);
        // The object still open when the file ends tops out at the last wall
        // seen; a file with no wall at all keeps the last layer.
        let top = match scan.last_wall_layer {
            Some(layer) => layer,
            None => layers - 1,
        };
        let mut object_tops = scan.object_tops;
        object_tops.push(top);
        let layer_heights = if varies {
            scan.layer_heights
        } else {
            Vec::new()
        };
        assert(!varies ==> layer_heights@ =~= seq![]);
        assert(sets(scan.uncovered@).len() == scan.uncovered@.len());
        let survey = Survey {
            layers,
            layer_markers,
            layer_height,
            layer_heights,
            wall_order: scan.wall_order,
            z_feedrate: scan.z_feedrate,
            skin_width: scan.skin_width,
            wall_width: scan.wall_width,
            nozzle: scan.nozzle,
            bricked: scan.bricked,
            arc_extrusions: scan.arc_extrusions,
            object_starts,
            object_tops,
            uncovered: scan.uncovered,
            unsupported: scan.unsupported,
        };
        proof {
            assert forall|i: int|
                0 <= i < survey.object_starts@.len() implies #[trigger] survey.object_starts@[i]
                < survey.layers by {
                if i > 0 {
                    assert(survey.object_starts@[i] == p.object_starts[i - 1]);
                }
            }
            assert forall|i: int|
                0 <= i < survey.object_tops@.len() - 1 implies #[trigger] survey.object_tops@[i]
                < survey.object_starts@[i + 1] by {
                assert(survey.object_tops@[i] == p.object_tops[i]);
                assert(survey.object_starts@[i + 1] == p.object_starts[i]);
            }
            assert forall|i: int, j: int|
                0 <= i < j < survey.object_starts@.len() implies survey.object_starts@[i]
                < survey.object_starts@[j] by {
                assert(survey.object_starts@[j] == p.object_starts[j - 1]);
                if i > 0 {
                    assert(survey.object_starts@[i] == p.object_starts[i - 1]);
                }
            }
        }
        survey
    }
}

fn settled_height(declared: Option<Double>, steps: &Vec<(i64, usize)>) -> (height: Height)
    ensures
        height == if declared is Some && declared->0.height() {
            Height::Declared(declared->0)
        } else {
            match commonest(steps@) {
                Some((step, _)) => Height::Measured(step),
                None => Height::Fallback,
            }
        },
{
    match declared {
        Some(height) => {
            if height.is_a_height() {
                return Height::Declared(height);
            }
        },
        None => {},
    }
    let mut best: Option<(i64, usize)> = None;
    let mut at: usize = 0;
    assert(steps@.take(0) =~= seq![]);
    while at < steps.len()
        invariant
            at <= steps.len(),
            best == commonest(steps@.take(at as int)),
        decreases steps.len() - at,
    {
        let seen = steps[at];
        assert(steps@.take(at + 1).drop_last() =~= steps@.take(at as int));
        best = match best {
            Some(so_far) => if seen.1 >= so_far.1 {
                Some(seen)
            } else {
                Some(so_far)
            },
            None => Some(seen),
        };
        at = at + 1;
    }
    assert(steps@.take(steps@.len() as int) =~= steps@);
    match best {
        Some((step, _)) => Height::Measured(step),
        None => Height::Fallback,
    }
}

/// Whether a layer is among some others.
fn listed(layers: &Vec<usize>, layer: usize) -> (found: bool)
    ensures
        found == layers@.contains(layer),
{
    let mut i: usize = 0;
    while i < layers.len()
        invariant
            i <= layers.len(),
            forall|j: int| 0 <= j < i ==> layers@[j] != layer,
        decreases layers.len() - i,
    {
        if layers[i] == layer {
            return true;
        }
        i = i + 1;
    }
    false
}

#[derive(Clone, Debug)]
pub struct Survey {
    /// Number of printed layers, used to find the first and last one.
    pub layers: usize,
    /// True when the file carries explicit layer-change markers.
    pub layer_markers: bool,
    pub layer_height: Height,
    /// Measured height of each layer, indexed from zero.
    ///
    /// Empty unless the slicer actually varied the height, so a file sliced at
    /// one height is described by [`layer_height`](Self::layer_height) alone and
    /// takes exactly the path it did before this was measured. A layer the pass
    /// could not measure holds zero.
    pub layer_heights: Vec<Double>,
    /// Order the file says its walls were printed in, from the configuration
    /// slicers append to the G-code. It cannot be measured from the moves
    /// themselves, so a file processed by hand has no other source.
    pub wall_order: Option<WallOrder>,
    /// Slowest feedrate the file itself uses to move Z alone, in mm/min.
    pub z_feedrate: Option<Double>,
    /// Width the visible wall was metered at, as the settings a slicer appends
    /// to the G-code state it.
    pub skin_width: Option<Vec<u8>>,
    /// Width the hidden walls were metered at, from the same settings.
    pub wall_width: Option<Vec<u8>>,
    /// Nozzle diameter, from the same settings.
    pub nozzle: Option<Vec<u8>>,
    /// True when this tool has already run over this file.
    pub bricked: bool,
    /// Extrusions inside internal perimeters emitted as `G2`/`G3` arcs, which
    /// pass through untouched however the loop around them is shifted.
    pub arc_extrusions: usize,
    /// Layer each object starts at, in print order, beginning with zero.
    ///
    /// A file sliced to complete individual objects builds each one from the
    /// bed up, so it holds several first and last layers rather than the one
    /// pair a layer-by-layer file has.
    pub object_starts: Vec<usize>,
    /// Last layer of each object that carries an internal perimeter.
    ///
    /// Measured, because it is almost never the object's last layer: a part is
    /// closed by solid infill printed over its walls, and Orca ends a file with
    /// a layer marker whose only extrusion is unlabelled.
    pub object_tops: Vec<usize>,
    /// Where each layer's internal perimeters run with nothing above them.
    ///
    /// A raised bead stands half a layer proud, so whatever the slicer lays
    /// over it at the next plane meets a gap half the size it was metered for.
    /// That is only harmless where the thing above is the same column, raised
    /// too. Everywhere else — a shoulder closed by a top surface, a feature
    /// that ends, the top of the part — the bead has to be laid flat instead.
    /// Indexed by layer, and empty for a file with no layer markers to hang
    /// the comparison on.
    pub uncovered: Vec<Cells>,
    /// Where each layer's internal perimeters run with nothing beneath them.
    ///
    /// The mirror of [`Survey::uncovered`]. A column that begins partway up —
    /// the underside of a shelf, the roof of a bridged hole — has no seam
    /// under its first bead, so raising that bead by the full offset asks it
    /// to span a layer and a half of gap while the slicer metered it for one.
    /// Indexed by layer, and empty for a file with no layer markers.
    pub unsupported: Vec<Cells>,
}

/// The answer for a layer, where there is one.
pub open spec fn answer(cells: Seq<Cells>, layer: int) -> Option<Set<u32>> {
    if 0 <= layer < cells.len() && cells[layer]@ != Set::<u32>::empty() {
        Some(cells[layer]@)
    } else {
        None
    }
}

impl Survey {
    /// There is a layer, the objects start at rising layers of the file, the
    /// first of them at the first layer, and each tops out before the next one
    /// starts. A height that was measured is one a layer could have, and without
    /// a layer marker nothing is known of what stands on what.
    pub open spec fn valid(self) -> bool {
        &&& self.layers >= 1
        &&& self.layer_height matches Height::Measured(step) ==> step > LEAST_STEP
        &&& !self.layer_markers ==> self.uncovered@.len() == 0 && self.unsupported@.len() == 0
        &&& self.object_starts@.len() >= 1
        &&& self.object_starts@[0] == 0
        &&& self.object_tops@.len() == self.object_starts@.len()
        &&& forall|i: int|
            0 <= i < self.object_starts@.len() ==> #[trigger] self.object_starts@[i] < self.layers
        &&& forall|i: int, j: int|
            0 <= i < j < self.object_starts@.len() ==> self.object_starts@[i]
                < self.object_starts@[j]
        &&& forall|i: int|
            0 <= i < self.object_tops@.len() - 1 ==> #[trigger] self.object_tops@[i]
                < self.object_starts@[i + 1]
        &&& self.object_tops@.last() < self.layers
        &&& all_settled(self.uncovered@)
        &&& all_settled(self.unsupported@)
    }

    /// True when the layer height came from the file rather than the fallback.
    pub fn layer_height_detected(&self) -> (detected: bool)
        ensures
            detected == !(self.layer_height is Fallback),
    {
        match self.layer_height {
            Height::Fallback => false,
            _ => true,
        }
    }

    /// Objects the file prints one after another.
    pub fn objects(&self) -> (count: usize)
        ensures
            count == self.object_starts@.len(),
    {
        self.object_starts.len()
    }

    /// True when the slicer varied the layer height across the file, so no one
    /// number describes it and every layer has to be raised by its own half.
    pub fn variable_layers(&self) -> (varies: bool)
        ensures
            varies == (self.layer_heights@.len() > 0),
    {
        self.layer_heights.len() > 0
    }

    /// True when `layer` is the first of its object, whose raised loops span
    /// from the bed rather than from the layer below.
    pub fn opens_an_object(&self, layer: usize) -> (opens: bool)
        ensures
            opens == self.object_starts@.contains(layer),
    {
        listed(&self.object_starts, layer)
    }

    /// True when `layer` tops an object's walls, so its loops have nothing
    /// above them to interlock with.
    ///
    /// This is the last layer holding an internal perimeter rather than the
    /// object's last layer: the two are rarely the same, and testing the layer
    /// count instead left every real file's topmost wall uncapped.
    pub fn closes_an_object(&self, layer: usize) -> (closes: bool)
        ensures
            closes == self.object_tops@.contains(layer),
    {
        listed(&self.object_tops, layer)
    }

    /// Where `layer`'s walls have nothing above them, or `None` where the file
    /// gave the survey no way to tell.
    pub fn uncovered(&self, layer: usize) -> (cells: Option<&Cells>)
        ensures
            cells is Some == answer(self.uncovered@, layer as int) is Some,
            cells is Some ==> {
                &&& *cells->0 == self.uncovered@[layer as int]
                &&& cells->0@ == answer(self.uncovered@, layer as int)->0
            },
    {
        told(&self.uncovered, layer)
    }

    /// Where `layer`'s walls have nothing beneath them, or `None` where the
    /// file gave the survey no way to tell.
    pub fn unsupported(&self, layer: usize) -> (cells: Option<&Cells>)
        ensures
            cells is Some == answer(self.unsupported@, layer as int) is Some,
            cells is Some ==> {
                &&& *cells->0 == self.unsupported@[layer as int]
                &&& cells->0@ == answer(self.unsupported@, layer as int)->0
            },
    {
        told(&self.unsupported, layer)
    }
}

fn told(cells: &Vec<Cells>, layer: usize) -> (found: Option<&Cells>)
    ensures
        found is Some == answer(cells@, layer as int) is Some,
        found is Some ==> {
            &&& *found->0 == cells@[layer as int]
            &&& found->0@ == answer(cells@, layer as int)->0
        },
{
    if layer < cells.len() && !cells[layer].is_empty() {
        Some(&cells[layer])
    } else {
        None
    }
}

/// Once a file has been seen to be this tool's own work it stays so.
pub proof fn a_stamp_is_never_forgotten(p: Progress, line: Line, m: Measures)
    requires
        p.bricked,
    ensures
        fed(p, line, m).bricked,
{
}

/// A line that is nothing but a comment moves neither the nozzle nor the
/// filament.
pub proof fn a_marker_moves_nothing(p: Progress, line: Line, m: Measures)
    requires
        gcode::marker_of(text::bytes(line.raw@)) is Some,
    ensures
        fed(p, line, m).at == p.at,
        fed(p, line, m).current_z == p.current_z,
        fed(p, line, m).extruder == p.extruder,
        fed(p, line, m).arc_extrusions == p.arc_extrusions,
{
}

/// A comment on a line that carries anything else marks no region, no layer and
/// no setting.
pub proof fn a_trailing_comment_marks_nothing(p: Progress, line: Line, m: Measures)
    requires
        gcode::marker_of(text::bytes(line.raw@)) is None,
    ensures
        fed(p, line, m).feature == p.feature,
        fed(p, line, m).layers == p.layers,
        fed(p, line, m).open_layer == p.open_layer,
        fed(p, line, m).declared_height == p.declared_height,
        fed(p, line, m).wall_order == p.wall_order,
{
}

/// Of a layer and the one above it, a cell of the lower that the upper does not
/// hold is kept as uncovered, and a cell of the upper that the lower does not
/// hold as unsupported; one they share is neither.
pub proof fn a_column_that_goes_on_is_neither_uncovered_nor_unsupported(p: Progress, cell: u32)
    requires
        p.open_layer is Some,
        p.below_layer is Some,
        p.here.contains(cell),
        p.below.contains(cell),
        p.uncovered.len() <= p.below_layer->0,
        p.unsupported.len() <= p.open_layer->0,
    ensures
        ({
            let after = footprint_closed(p);
            let below = p.below_layer->0 as int;
            let open = p.open_layer->0 as int;
            &&& below < after.uncovered.len() ==> !after.uncovered[below].contains(cell)
            &&& open < after.unsupported.len() ==> !after.unsupported[open].contains(cell)
        }),
{
}

} // verus!
