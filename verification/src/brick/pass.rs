//! Which lines of a file are held back as a region, and which go straight
//! through.

use crate::double::Double;
use crate::feature;
use crate::feature::Feature;
use crate::gcode;
use crate::gcode::Code;
use crate::gcode::Extruder;
use crate::gcode::Line;
use crate::gcode::Word;
use crate::scan;
use crate::scan::Survey;
use crate::text;
use vstd::prelude::*;
use vstd::string::*;

verus! {

/// Most lines held back between one region's last bead and the next region's
/// first, so that a wall's opening travel can carry its height.
///
/// A real lead is a handful of lines — a travel, a hop restore, a prime and
/// the markers. The cap is what keeps the promise that nothing larger than one
/// region is ever buffered, whatever a file puts between two extrusions.
pub const TAIL: usize = 64;

/// How a rewrite is to be done.
#[derive(Clone, Copy, Debug)]
pub struct Config {
    /// Layer height in mm, used for every layer. `None` takes each layer's own
    /// height from the file, which is the only right answer where the slicer
    /// varied it.
    pub layer_height: Option<Double>,
    /// Flow every wall bead is metered at, over what its own geometry asks
    /// for, or `None` to derive it from the file.
    pub wall_flow: Option<Double>,
    /// Extra flow a wall takes when its layer is as thick as the nozzle, as a
    /// fraction.
    pub extra_flow: Double,
    /// Width the internal perimeters were metered at, in mm, which sets the
    /// spacing the derived flow is read from.
    pub wall_width: Option<Double>,
    /// True when the slicer prints the external perimeter before the loops
    /// behind it, which decides which end of a wall the numbering starts from.
    /// Every mainstream slicer prints it last by default.
    pub external_perimeters_first: bool,
}

/// What has been measured of one line. A figure counts only where the line
/// carries what it is about.
#[derive(Clone, Copy, Debug)]
pub struct Measures {
    pub x: Double,
    pub y: Double,
    pub z: Double,
    pub e: Double,
    pub f: Double,
    pub i: Double,
    pub j: Double,
    /// How far the `E` word is past where the input stream stands.
    pub fed: Double,
}

/// The centre of a `G2`/`G3` relative to its start, and which way it turns.
#[derive(Clone, Copy, Debug, PartialEq, Eq, Structural)]
pub struct Arc {
    pub i: Double,
    pub j: Double,
    pub clockwise: bool,
}

/// A buffered line, with the extrusion it asked for already resolved against
/// the input stream so that loops can be reordered safely.
#[derive(Clone, Copy, Debug)]
pub struct Buffered {
    /// Byte range of the `E` word's digits within the line, so rescaling it
    /// needs no second parse.
    pub e_span: Option<(usize, usize)>,
    /// The value the line was written with, which is what decides whether it
    /// has to be written again.
    pub e: Option<Double>,
    pub delta: Option<Double>,
    pub z: Option<Double>,
    pub f: Option<Double>,
    pub xy: Option<(Double, Double)>,
    /// Where the move ends, with the axes it left unnamed carried forward, so
    /// a loop's path can be walked without re-reading the region.
    pub at: (Double, Double),
    /// Centre and direction of a `G2`/`G3`, so its path is followed round
    /// rather than cut across.
    pub arc: Option<Arc>,
    pub extrudes: bool,
    /// True where the line decides where the nozzle is next, so nothing after
    /// it in a lead can undo a height set on it.
    pub positions: bool,
    /// True where a height change can ride this line instead of stopping the
    /// toolhead for one of its own. Extrusions and wipes are excluded — their
    /// path is laid against the layer below — and so is a line that already
    /// carries a comment, which is where the stamp has to go.
    pub carries: bool,
    /// True where the line is a `G92`, whose `E` is an origin rather than a
    /// demand for filament and so reaches the output stream only when the
    /// line is written.
    pub resets_origin: bool,
}

/// The extent of what a loop extrudes.
#[derive(Clone, Copy, Debug, PartialEq, Eq, Structural)]
pub struct Outline {
    pub left: Double,
    pub bottom: Double,
    pub right: Double,
    pub top: Double,
}

/// One perimeter loop, as index ranges into the buffer. `lead` covers the
/// travel that reaches the loop, `body` the extrusions themselves.
#[derive(Clone, Copy, Debug, PartialEq, Eq, Structural)]
pub struct Loop {
    pub lead: usize,
    pub body: usize,
    /// One past this loop's last buffered line, known only once the region is
    /// complete.
    pub end: usize,
    /// Which contour of the region this loop belongs to, so a contour that
    /// holds only one loop can be told apart from a wall that alternates.
    pub contour: usize,
    /// True where this loop is the visible wall, which anchors the numbering
    /// of the contour it belongs to and is the one loop that gets moved
    /// sideways.
    pub external: bool,
    /// True where any part of this loop was labelled a hidden wall. A loop
    /// that is neither is one the slicer only ever called an overhang, and
    /// nothing in the file says which wall that was.
    pub hidden: bool,
    pub raised: bool,
    /// True where nothing stands on this loop on the next layer, so it has to
    /// finish flat whatever the parity says.
    pub capped: bool,
    /// Layers this loop's own column has stood for. Zero where the column
    /// begins on this layer, so its first bead climbs from the plane rather
    /// than being raised to an offset nothing under it earned.
    pub steps: usize,
    /// Extent of what the loop extrudes, and how many points it lays down.
    /// Measured once, since grouping compares every loop with both the one
    /// before it and the one after.
    pub outline: Option<Outline>,
    pub points: usize,
}

/// Where the pass stands in the file.
#[derive(Clone, Copy, Debug)]
pub struct State {
    pub feature: Feature,
    pub layer: usize,
    pub started: bool,
    pub layer_z: Double,
    pub nozzle_z: Option<Double>,
    /// Feedrate the output stream is currently left in, since `F` is modal and
    /// an inserted Z move would otherwise hand its own rate to the next print.
    pub feedrate: Option<Double>,
    pub travelled: bool,
    /// Where the nozzle stands in the plane, with the axes each move left
    /// unnamed carried forward, and where it stood when the buffered region
    /// began.
    pub at: (Double, Double),
    pub entry: (Double, Double),
    pub extruder: Extruder,
}

/// What becomes of a line.
#[derive(Clone, Copy, Debug, PartialEq, Eq, Structural)]
pub enum Route {
    /// It goes out as it is.
    Push,
    /// It is held back with the region.
    Hold,
    /// It goes out once the region before it has, its `E` metered anew.
    Through,
}

/// A value above zero.
pub open spec fn positive(value: Double) -> bool {
    Double { bits: 0 }.below(value)
}

/// The value of a word, where the line has it.
pub open spec fn value(word: Option<Word>, measured: Double) -> Option<Double> {
    if word is Some {
        Some(measured)
    } else {
        None
    }
}

fn value_of(word: &Option<Word>, measured: Double) -> (read: Option<Double>)
    ensures
        read == value(*word, measured),
{
    match word {
        Some(_) => Some(measured),
        None => None,
    }
}

/// The region is a wall of some kind.
pub open spec fn wall(feature: Feature) -> bool {
    feature is ExternalPerimeter || feature is InternalPerimeter || feature is Overhang
}

/// What the text of a bare comment means to a rewrite.
pub enum Mark {
    Layer,
    Region(Feature),
    Nothing,
}

/// What a line's comment means to a rewrite, which is nothing unless it is all
/// the line carries.
pub open spec fn mark_of(raw: Seq<u8>) -> Mark {
    match gcode::marker_of(raw) {
        Some(marker) => if feature::changes_layer(marker) {
            Mark::Layer
        } else {
            match feature::marked(marker) {
                Some(region) => Mark::Region(region),
                None => Mark::Nothing,
            }
        },
        None => Mark::Nothing,
    }
}

fn mark(line: &Line) -> (found: Mark)
    requires
        line.valid(),
    ensures
        found == mark_of(text::bytes(line.raw@)),
{
    match line.marker() {
        Some(marker) => if feature::is_layer_marker(marker) {
            Mark::Layer
        } else {
            match Feature::from_marker(marker) {
                Some(region) => Mark::Region(region),
                None => Mark::Nothing,
            }
        },
        None => Mark::Nothing,
    }
}

/// The region has to be written before the line is taken in: at a layer change,
/// where a wall gives way to something that is not one, and where a `G92` would
/// otherwise jump ahead of loops that are metered out later.
pub open spec fn breaks(state: State, loops: nat, line: Line) -> bool {
    match mark_of(text::bytes(line.raw@)) {
        Mark::Layer => true,
        Mark::Region(region) => loops > 0 && !(wall(state.feature) && wall(region)),
        Mark::Nothing => line.code == Code::SetPosition && loops > 0,
    }
}

/// A line that cannot be held back, because it lays a bead or because enough is
/// held back already.
pub open spec fn passes(buffered: nat, loops: nat, line: Line) -> bool {
    loops > 0 || buffered >= TAIL || ((line.x is Some || line.y is Some) && line.e is Some)
}

/// The pass once it has begun another layer.
pub open spec fn next_layer(state: State) -> State {
    State {
        layer: if state.started {
            (state.layer + 1) as usize
        } else {
            state.layer
        },
        started: true,
        ..state
    }
}

/// The pass once it has seen where a line leaves the nozzle.
pub open spec fn moved_on(state: State, layer_markers: bool, line: Line, m: Measures) -> State {
    let z = if line.code == Code::Move {
        value(line.z, m.z)
    } else {
        None
    };
    let climbed = match z {
        Some(z) => {
            let begun = if !layer_markers && state.layer_z.below(z) {
                next_layer(state)
            } else {
                state
            };
            State { layer_z: z, ..begun }
        },
        None => state,
    };
    if line.code == Code::Move || line.code == Code::Arc {
        State {
            at: (
                if line.x is Some {
                    m.x
                } else {
                    state.at.0
                },
                if line.y is Some {
                    m.y
                } else {
                    state.at.1
                },
            ),
            ..climbed
        }
    } else {
        climbed
    }
}

/// The extruder once a command has been read, before any filament it asks for.
pub open spec fn told_extruder(extruder: Extruder, line: Line, m: Measures) -> Extruder {
    if line.code == Code::AbsoluteE {
        Extruder { absolute: true, ..extruder }
    } else if line.code == Code::RelativeE {
        Extruder { absolute: false, ..extruder }
    } else if line.code == Code::SetPosition && line.e is Some {
        Extruder { input: m.e, ..extruder }
    } else {
        extruder
    }
}

/// Where a line goes, and where the pass stands once that has been decided.
pub open spec fn routed(
    state: State,
    layer_markers: bool,
    buffered: nat,
    loops: nat,
    line: Line,
    m: Measures,
) -> (State, Route) {
    match mark_of(text::bytes(line.raw@)) {
        Mark::Layer => (next_layer(State { feature: Feature::Other, ..state }), Route::Push),
        Mark::Region(region) => {
            let after = State { feature: region, ..state };
            if wall(state.feature) && wall(region) && buffered > 0 {
                (after, Route::Hold)
            } else {
                kept(after, buffered, loops, line, state.at)
            }
        },
        Mark::Nothing => {
            let told = State { extruder: told_extruder(state.extruder, line, m), ..state };
            let after = moved_on(told, layer_markers, line, m);
            if wall(state.feature) {
                (opened(after, buffered, state.at), Route::Hold)
            } else {
                kept(after, buffered, loops, line, state.at)
            }
        },
    }
}

/// The pass with the place a region starts from noted, where it starts now.
pub open spec fn opened(state: State, buffered: nat, from: (Double, Double)) -> State {
    if buffered == 0 {
        State { entry: from, ..state }
    } else {
        state
    }
}

/// Holds a line back that a region opening after it might still need, or lets
/// it through.
pub open spec fn kept(
    state: State,
    buffered: nat,
    loops: nat,
    line: Line,
    from: (Double, Double),
) -> (State, Route) {
    if passes(buffered, loops, line) {
        (state, Route::Through)
    } else {
        (opened(state, buffered, from), Route::Hold)
    }
}

/// The filament a line asks for.
pub open spec fn demand(extruder: Extruder, line: Line, m: Measures) -> Option<Double> {
    if line.e is Some && (line.code == Code::Move || line.code == Code::Arc) {
        Some(
            if extruder.absolute {
                m.fed
            } else {
                m.e
            },
        )
    } else {
        None
    }
}

/// The extruder once a line's filament has been read from the input.
pub open spec fn drawn_from(extruder: Extruder, line: Line, m: Measures) -> Extruder {
    if demand(extruder, line, m) is Some && extruder.absolute {
        Extruder { input: m.e, ..extruder }
    } else {
        extruder
    }
}

/// What is kept of a line that is held back.
pub open spec fn record(state: State, line: Line, m: Measures) -> Buffered {
    let moves = line.code == Code::Move;
    let delta = demand(state.extruder, line, m);
    let xy = if line.x is Some && line.y is Some {
        Some((m.x, m.y))
    } else {
        None
    };
    let positions = moves && (line.has_xy || line.z is Some);
    Buffered {
        e_span: match line.e {
            Some(word) => Some((word.start, word.end)),
            None => None,
        },
        e: value(line.e, m.e),
        delta,
        z: if moves {
            value(line.z, m.z)
        } else {
            None
        },
        f: value(line.f, m.f),
        xy,
        at: state.at,
        arc: if line.code == Code::Arc && line.i is Some && line.j is Some {
            Some(Arc { i: m.i, j: m.j, clockwise: line.clockwise })
        } else {
            None
        },
        extrudes: xy is Some && delta is Some && positive(delta->0),
        positions,
        carries: positions && line.e is None && line.comment_at is None,
        resets_origin: line.code == Code::SetPosition,
    }
}

/// Where the travel that reaches the loop whose first bead is `body` begins: at
/// the first line after the last bead before it.
pub open spec fn lead_of(buffer: Seq<Buffered>, floor: int, body: int) -> int
    decreases body - floor,
{
    if body > floor && !buffer[body - 1].extrudes {
        lead_of(buffer, floor, body - 1)
    } else {
        body
    }
}

/// The loops of a region once one more bead has been laid. A bead that a travel
/// reached opens a loop; any other belongs to the loop before it, which is
/// whatever wall any bead of it was labelled.
pub open spec fn looped(
    loops: Seq<Loop>,
    buffer: Seq<Buffered>,
    travelled: bool,
    feature: Feature,
) -> Seq<Loop> {
    let body = buffer.len() - 1;
    if loops.len() == 0 || travelled {
        let floor = if loops.len() == 0 {
            0
        } else {
            loops.last().body + 1
        };
        loops.push(
            Loop {
                lead: lead_of(buffer, floor, body) as usize,
                body: body as usize,
                end: 0,
                contour: 0,
                external: feature is ExternalPerimeter,
                hidden: feature is InternalPerimeter,
                raised: false,
                capped: false,
                steps: 0,
                outline: None,
                points: 0,
            },
        )
    } else {
        let last = loops.last();
        loops.drop_last().push(
            Loop {
                external: last.external || feature is ExternalPerimeter,
                hidden: last.hidden || feature is InternalPerimeter,
                ..last
            },
        )
    }
}

/// The loops of a region follow each other: each has its first bead in the
/// buffer, and nothing but travel between where its lead starts and that bead.
#[verifier::opaque]
pub open spec fn follows(loops: Seq<Loop>, buffer: Seq<Buffered>) -> bool {
    &&& forall|k: int|
        0 <= k < loops.len() ==> (#[trigger] loops[k]).lead <= loops[k].body && loops[k].body
            < buffer.len() && buffer[loops[k].body as int].extrudes
    &&& forall|k: int, l: int| 0 <= k < l < loops.len() ==> loops[k].body < loops[l].lead
    &&& forall|k: int, i: int|
        #![trigger loops[k], buffer[i]]
        0 <= k < loops.len() && loops[k].lead <= i < loops[k].body ==> !buffer[i].extrudes
}

proof fn lemma_follows_longer(loops: Seq<Loop>, buffer: Seq<Buffered>, entry: Buffered)
    requires
        follows(loops, buffer),
    ensures
        follows(loops, buffer.push(entry)),
{
    reveal(follows);
}

proof fn lemma_follows_relabelled(loops: Seq<Loop>, buffer: Seq<Buffered>, last: Loop)
    requires
        follows(loops, buffer),
        loops.len() > 0,
        last.lead == loops.last().lead,
        last.body == loops.last().body,
    ensures
        follows(loops.drop_last().push(last), buffer),
{
    reveal(follows);
    let after = loops.drop_last().push(last);
    assert forall|k: int| 0 <= k < loops.len() implies (#[trigger] after[k]).lead == loops[k].lead
        && after[k].body == loops[k].body by {}
}

proof fn lemma_follows_opened(loops: Seq<Loop>, buffer: Seq<Buffered>, next: Loop)
    requires
        follows(loops, buffer),
        loops.len() > 0 ==> loops.last().body < next.lead,
        next.lead <= next.body < buffer.len(),
        buffer[next.body as int].extrudes,
        forall|i: int| next.lead <= i < next.body ==> !(#[trigger] buffer[i]).extrudes,
    ensures
        follows(loops.push(next), buffer),
{
    reveal(follows);
    let after = loops.push(next);
    assert forall|k: int, l: int| 0 <= k < l < after.len() implies after[k].body < after[l].lead by {
        if l == loops.len() {
            assert(after[l] == next);
            if k < loops.len() - 1 {
                assert(loops[k].body < loops[loops.len() - 1].lead);
                assert(loops[loops.len() - 1].lead <= loops[loops.len() - 1].body);
            }
        }
    }
}

/// Where the pass stands once a line has been held back.
pub open spec fn held(state: State, line: Line, m: Measures) -> State {
    State {
        extruder: drawn_from(state.extruder, line, m),
        travelled: if record(state, line, m).extrudes {
            false
        } else {
            state.travelled || (line.code == Code::Move && line.has_xy)
        },
        ..state
    }
}

/// The loops of a region once a line has been held back.
pub open spec fn held_loops(
    loops: Seq<Loop>,
    buffer: Seq<Buffered>,
    state: State,
    line: Line,
    m: Measures,
) -> Seq<Loop> {
    let entry = record(state, line, m);
    if entry.extrudes {
        looped(loops, buffer.push(entry), state.travelled, state.feature)
    } else {
        loops
    }
}

/// A rewrite of one file.
pub struct Pass<'a> {
    pub config: Config,
    pub survey: &'a Survey,
    /// Layer height to use where the file measured none, which is every layer
    /// of a file sliced at a fixed height.
    pub height: Double,
    /// Height the file measured for each layer, empty unless the slicer varied
    /// them. A raise is half of the layer it belongs to, so an adaptive slice
    /// has as many raises as it has heights.
    pub heights: Vec<Double>,
    pub state: State,
    /// Rate for the Z moves this pass inserts.
    pub z_feedrate: Double,
    /// Text of the region being buffered, a line each.
    pub texts: Vec<String>,
    pub buffer: Vec<Buffered>,
    pub loops: Vec<Loop>,
    /// Width the visible wall was metered at, in mm, which turns the flow it
    /// gains into the distance it has to be brought toward the loop behind it.
    /// Never absent: a wall that gains material without moving grows the part,
    /// so where the file states no width this falls back to the same profile
    /// the flow itself does.
    pub skin_width: Double,
    /// Width the hidden walls were metered at, in mm, which is what the flow
    /// is derived from.
    pub wall_width: Option<Double>,
    pub loops_seen: usize,
    pub raised: usize,
    pub capped: usize,
}

/// What a file and its slicer leave a rewrite to go by where the survey names
/// no value of its own.
#[derive(Clone, Copy, Debug)]
pub struct Profile {
    /// The layer height of the survey, in mm.
    pub layer_height: Double,
    /// Feedrate for an inserted Z move when the file never shows one.
    pub z_feedrate: Double,
    /// Width the file states for its visible wall, in mm.
    pub skin_width: Option<Double>,
    /// Width the file states for its hidden walls, in mm.
    pub wall_width: Option<Double>,
    /// Width of a wall where nothing is stated, in mm.
    pub reference_width: Double,
}

/// The first of some values that is there.
pub open spec fn first(a: Option<Double>, b: Option<Double>) -> Option<Double> {
    if a is Some {
        a
    } else {
        b
    }
}

fn first_of(a: Option<Double>, b: Option<Double>) -> (value: Option<Double>)
    ensures
        value == first(a, b),
{
    if a.is_some() {
        a
    } else {
        b
    }
}

/// The value a caller gave for every layer, where it is a height.
pub open spec fn uniform(config: Config) -> Option<Double> {
    if config.layer_height is Some && config.layer_height->0.height() {
        config.layer_height
    } else {
        None
    }
}

impl<'a> Pass<'a> {
    /// The region being buffered hangs together.
    pub open spec fn valid(self) -> bool {
        &&& self.survey.valid()
        &&& self.texts@.len() == self.buffer@.len()
        &&& follows(self.loops@, self.buffer@)
        &&& self.buffer@.len() == 0 ==> self.loops@.len() == 0
    }

    /// A rewrite that has read nothing yet.
    pub fn new(config: Config, survey: &'a Survey, profile: Profile) -> (pass: Self)
        requires
            survey.valid(),
        ensures
            pass.valid(),
            pass.config == config,
            pass.survey == survey,
            pass.height == match uniform(config) {
                Some(height) => height,
                None => profile.layer_height,
            },
            pass.heights@ == if uniform(config) is Some {
                seq![]
            } else {
                survey.layer_heights@
            },
            pass.state.feature is Other,
            pass.state.layer == 0,
            !pass.state.started,
            pass.state.layer_z.bits == 0,
            pass.state.nozzle_z is None,
            pass.state.feedrate is None,
            !pass.state.travelled,
            pass.state.at == (Double { bits: 0 }, Double { bits: 0 }),
            pass.state.entry == pass.state.at,
            pass.state.extruder.absolute,
            pass.state.extruder.input.bits == 0,
            pass.state.extruder.output.bits == 0,
            pass.z_feedrate == match survey.z_feedrate {
                Some(rate) => rate,
                None => profile.z_feedrate,
            },
            pass.skin_width == match first(
                first(profile.skin_width, config.wall_width),
                profile.wall_width,
            ) {
                Some(width) => width,
                None => profile.reference_width,
            },
            pass.wall_width == first(config.wall_width, profile.wall_width),
            pass.buffer@.len() == 0,
            pass.loops_seen == 0,
            pass.raised == 0,
            pass.capped == 0,
    {
        let zero = Double::zero();
        let uniform = match config.layer_height {
            Some(height) => if height.is_a_height() {
                Some(height)
            } else {
                None
            },
            None => None,
        };
        // A height given on the command line is the one the caller wants used,
        // so it stands in for the measurement rather than beside it.
        let mut heights: Vec<Double> = Vec::new();
        if uniform.is_none() {
            heights.extend_from_slice(survey.layer_heights.as_slice());
            assert(heights@ =~= survey.layer_heights@);
        }
        proof {
            reveal(follows);
        }
        Pass {
            config,
            survey,
            height: match uniform {
                Some(height) => height,
                None => profile.layer_height,
            },
            heights,
            state: State {
                feature: Feature::Other,
                layer: 0,
                started: false,
                layer_z: zero,
                nozzle_z: None,
                feedrate: None,
                travelled: false,
                at: (zero, zero),
                entry: (zero, zero),
                extruder: Extruder::new(),
            },
            z_feedrate: match survey.z_feedrate {
                Some(rate) => rate,
                None => profile.z_feedrate,
            },
            texts: Vec::new(),
            buffer: Vec::new(),
            loops: Vec::new(),
            // The visible wall gains material whether or not the file says how
            // wide it is, and material it gains without being moved grows the
            // part. A width off by a tenth misplaces the face by a fraction of
            // a micron; not moving at all misplaces it by the whole offset.
            skin_width: match first_of(
                first_of(profile.skin_width, config.wall_width),
                profile.wall_width,
            ) {
                Some(width) => width,
                None => profile.reference_width,
            },
            wall_width: first_of(config.wall_width, profile.wall_width),
            loops_seen: 0,
            raised: 0,
            capped: 0,
        }
    }

    /// Whether the region has to be written before `line` is taken in.
    pub fn must_flush(&self, line: &Line) -> (flush: bool)
        requires
            line.valid(),
        ensures
            flush == breaks(self.state, self.loops@.len(), *line),
    {
        match mark(line) {
            Mark::Layer => true,
            Mark::Region(region) => self.loops.len() > 0 && !(self.state.feature.is_perimeter()
                && region.is_perimeter()),
            Mark::Nothing => line.code == Code::SetPosition && self.loops.len() > 0,
        }
    }

    /// Takes in one line and says what becomes of it. A line that is let
    /// through is not metered yet: see [`Pass::meter_through`].
    pub fn take(&mut self, line: &Line, m: &Measures) -> (route: Route)
        requires
            old(self).valid(),
            *line == gcode::reading(line.raw, true),
            old(self).state.layer < usize::MAX,
            old(self).buffer@.len() < usize::MAX,
            breaks(old(self).state, old(self).loops@.len(), *line) ==> old(self).buffer@.len() == 0,
        ensures
            final(self).valid(),
            ({
                let (state, decided) = routed(
                    old(self).state,
                    old(self).survey.layer_markers,
                    old(self).buffer@.len(),
                    old(self).loops@.len(),
                    *line,
                    *m,
                );
                &&& route == decided
                &&& route == Route::Hold ==> {
                    &&& final(self).buffer@ == old(self).buffer@.push(record(state, *line, *m))
                    &&& final(self).texts@.last()@ == line.raw@
                    &&& final(self).texts@.drop_last() == old(self).texts@
                    &&& final(self).loops@ == held_loops(
                        old(self).loops@,
                        old(self).buffer@,
                        state,
                        *line,
                        *m,
                    )
                    &&& final(self).state == held(state, *line, *m)
                }
                &&& route != Route::Hold ==> {
                    &&& final(self).buffer@ == old(self).buffer@
                    &&& final(self).texts@ == old(self).texts@
                    &&& final(self).loops@ == old(self).loops@
                    &&& final(self).state == state
                }
            }),
            final(self).config == old(self).config,
            final(self).survey == old(self).survey,
            final(self).height == old(self).height,
            final(self).heights@ == old(self).heights@,
            final(self).z_feedrate == old(self).z_feedrate,
            final(self).skin_width == old(self).skin_width,
            final(self).wall_width == old(self).wall_width,
            final(self).loops_seen == old(self).loops_seen,
            final(self).raised == old(self).raised,
            final(self).capped == old(self).capped,
    {
        let route = self.decide(line, m);
        if route == Route::Hold {
            self.hold(line, m);
        }
        route
    }

    /// Decides where a line goes, and moves on.
    fn decide(&mut self, line: &Line, m: &Measures) -> (route: Route)
        requires
            line.valid(),
            old(self).state.layer < usize::MAX,
        ensures
            (final(self).state, route) == routed(
                old(self).state,
                old(self).survey.layer_markers,
                old(self).buffer@.len(),
                old(self).loops@.len(),
                *line,
                *m,
            ),
            *final(self) == (Pass { state: final(self).state, ..*old(self) }),
    {
        let from = self.state.at;
        match mark(line) {
            Mark::Layer => {
                // Slicers re-declare the region after a layer change, and some
                // open the next wall with a stray segment before they do.
                // Carrying the old region across would buffer that segment as
                // a perimeter loop of its own.
                self.state.feature = Feature::Other;
                self.begin_layer();
                Route::Push
            },
            Mark::Region(region) => {
                // A wall's loops are grouped and numbered as one, so the two
                // regions a slicer splits it across stay in one buffer: the
                // visible wall takes its place in the same alternation as the
                // loops behind it.
                let continues = self.state.feature.is_perimeter() && region.is_perimeter();
                self.state.feature = region;
                if continues && self.buffer.len() > 0 {
                    Route::Hold
                } else {
                    self.keep(line, from)
                }
            },
            Mark::Nothing => {
                let walls = self.state.feature.is_perimeter();
                match line.code {
                    Code::AbsoluteE | Code::RelativeE => {
                        self.state.extruder.set_mode(line.code);
                    },
                    // A `G92` redefines the extruder origin. Loops that are
                    // still buffered may yet be reordered, so the reset has to
                    // be metered out with them rather than jumping ahead of
                    // them. A tail holds no loops and replays in the order it
                    // arrived, so the reset can travel with it.
                    Code::SetPosition => {
                        if line.e.is_some() {
                            self.state.extruder.observe_origin(m.e);
                        }
                    },
                    _ => {},
                }
                // Klipper and Orca without a Z-hop put a layer's Z on the
                // travel that reaches the first loop, which lands inside the
                // buffered region.
                if line.is_move() && line.z.is_some() {
                    if !self.survey.layer_markers && self.state.layer_z.is_below(m.z) {
                        self.begin_layer();
                    }
                    self.state.layer_z = m.z;
                }
                // A slicer names only the axes that change, so a move starts
                // wherever the last one left off.
                if line.draws() {
                    if line.x.is_some() {
                        self.state.at.0 = m.x;
                    }
                    if line.y.is_some() {
                        self.state.at.1 = m.y;
                    }
                }
                if walls {
                    if self.buffer.len() == 0 {
                        self.state.entry = from;
                    }
                    Route::Hold
                } else {
                    self.keep(line, from)
                }
            },
        }
    }

    fn begin_layer(&mut self)
        requires
            old(self).state.layer < usize::MAX,
        ensures
            *final(self) == (Pass { state: next_layer(old(self).state), ..*old(self) }),
    {
        if self.state.started {
            self.state.layer = self.state.layer + 1;
        }
        self.state.started = true;
    }

    /// Decides whether a line that a region opening after it might still need
    /// is held back, or let through.
    ///
    /// The travel that reaches a region's first loop is emitted before the
    /// `; FEATURE:` marker that opens the region, so without holding it back
    /// the first loop has nothing to carry its height and needs a `G1 Z` of
    /// its own — which stops the toolhead on the loop's start point, primed,
    /// which is the seam. Anything that lays no bead is held, because anything
    /// that lays no bead can sit between one region's last bead and the next
    /// region's first.
    fn keep(&mut self, line: &Line, from: (Double, Double)) -> (route: Route)
        ensures
            ({
                let (state, decided) = kept(
                    old(self).state,
                    old(self).buffer@.len(),
                    old(self).loops@.len(),
                    *line,
                    from,
                );
                &&& route == decided
                &&& *final(self) == (Pass { state, ..*old(self) })
            }),
    {
        let lays = (line.x.is_some() || line.y.is_some()) && line.e.is_some();
        if self.loops.len() == 0 && self.buffer.len() < TAIL && !lays {
            if self.buffer.len() == 0 {
                self.state.entry = from;
            }
            Route::Hold
        } else {
            Route::Through
        }
    }

    fn hold(&mut self, line: &Line, m: &Measures)
        requires
            old(self).valid(),
            old(self).buffer@.len() < usize::MAX,
        ensures
            final(self).valid(),
            final(self).buffer@ == old(self).buffer@.push(record(old(self).state, *line, *m)),
            final(self).texts@.last()@ == line.raw@,
            final(self).texts@.drop_last() == old(self).texts@,
            final(self).loops@ == held_loops(
                old(self).loops@,
                old(self).buffer@,
                old(self).state,
                *line,
                *m,
            ),
            final(self).state == held(old(self).state, *line, *m),
            final(self).config == old(self).config,
            final(self).survey == old(self).survey,
            final(self).height == old(self).height,
            final(self).heights == old(self).heights,
            final(self).z_feedrate == old(self).z_feedrate,
            final(self).skin_width == old(self).skin_width,
            final(self).wall_width == old(self).wall_width,
            final(self).loops_seen == old(self).loops_seen,
            final(self).raised == old(self).raised,
            final(self).capped == old(self).capped,
    {
        let ghost state = self.state;
        let ghost before = self.buffer@;
        let zero = Double::zero();
        // A `G92` carries an `E` that sets the origin rather than asking for
        // filament, and that has been dealt with already.
        let delta = if line.e.is_some() && line.draws() {
            Some(self.state.extruder.observe(m.e, m.fed))
        } else {
            None
        };
        let xy = match line.xy() {
            Some(_) => Some((m.x, m.y)),
            None => None,
        };
        // Arc fitting turns a run of short segments into one G2/G3. Leaving
        // those out of a loop would strand its opening arcs in the travel that
        // reaches it, to be printed before the nozzle rises.
        let extrudes = xy.is_some() && match delta {
            Some(delta) => zero.is_below(delta),
            None => false,
        };
        let moves = line.is_move();
        let positions = moves && (line.has_xy || line.z.is_some());
        let entry = Buffered {
            e_span: line.e_span(),
            e: value_of(&line.e, m.e),
            delta,
            z: if moves {
                value_of(&line.z, m.z)
            } else {
                None
            },
            f: value_of(&line.f, m.f),
            xy,
            at: self.state.at,
            arc: match line.arc() {
                Some((_, _, clockwise)) => Some(Arc { i: m.i, j: m.j, clockwise }),
                None => None,
            },
            extrudes,
            positions,
            carries: positions && line.e.is_none() && line.comment_at.is_none(),
            resets_origin: line.code == Code::SetPosition,
        };
        assert(entry == record(state, *line, *m));
        self.buffer.push(entry);
        self.texts.push(line.raw.to_owned());
        assert(self.texts@.drop_last() =~= old(self).texts@);
        proof {
            lemma_follows_longer(self.loops@, before, entry);
        }
        if extrudes {
            if self.loops.len() == 0 || self.state.travelled {
                proof {
                    reveal(follows);
                    assert(self.loops@.len() > 0 ==> self.loops@[self.loops@.len() - 1].body
                        < before.len());
                }
                self.open_loop();
            } else {
                // A slicer relabels a wall where it runs out over air, so one
                // loop can carry `Inner wall`, `Overhang wall` and `Outer
                // wall` in turn with no travel between. Which wall it is, is
                // whatever any bead of it was labelled.
                let ghost loops = self.loops@;
                let last = self.loops.len() - 1;
                let mut current = self.loops[last];
                if self.state.feature == Feature::ExternalPerimeter {
                    current.external = true;
                }
                if self.state.feature == Feature::InternalPerimeter {
                    current.hidden = true;
                }
                self.loops.set(last, current);
                proof {
                    lemma_follows_relabelled(loops, self.buffer@, current);
                    assert(self.loops@ =~= loops.drop_last().push(current));
                }
                assert(self.loops@ =~= looped(
                    loops,
                    self.buffer@,
                    state.travelled,
                    state.feature,
                ));
            }
        } else if line.is_xy_move() {
            self.state.travelled = true;
        }
    }

    fn open_loop(&mut self)
        requires
            old(self).buffer@.len() > 0,
            old(self).buffer@.last().extrudes,
            old(self).loops@.len() == 0 || old(self).state.travelled,
            follows(old(self).loops@, old(self).buffer@),
            old(self).loops@.len() > 0 ==> old(self).loops@.last().body < old(self).buffer@.len()
                - 1,
        ensures
            final(self).loops@ == looped(
                old(self).loops@,
                old(self).buffer@,
                old(self).state.travelled,
                old(self).state.feature,
            ),
            follows(final(self).loops@, final(self).buffer@),
            *final(self) == (Pass {
                loops: final(self).loops,
                state: State { travelled: false, ..old(self).state },
                ..*old(self)
            }),
    {
        // Pull the travel that reaches this loop in with it, so reordering
        // loops keeps them reachable.
        let body = self.buffer.len() - 1;
        let count = self.loops.len();
        let floor = if count == 0 {
            0
        } else {
            self.loops[count - 1].body + 1
        };
        let mut lead = body;
        while lead > floor && !self.buffer[lead - 1].extrudes
            invariant
                floor <= lead <= body,
                body == self.buffer@.len() - 1,
                *self == *old(self),
                lead_of(self.buffer@, floor as int, body as int) == lead_of(
                    self.buffer@,
                    floor as int,
                    lead as int,
                ),
                forall|i: int| lead <= i < body ==> !(#[trigger] self.buffer@[i]).extrudes,
            decreases lead,
        {
            lead = lead - 1;
        }
        let feature = self.state.feature;
        let ghost before = self.loops@;
        let next = Loop {
            lead,
            body,
            end: 0,
            contour: 0,
            external: feature == Feature::ExternalPerimeter,
            hidden: feature == Feature::InternalPerimeter,
            raised: false,
            capped: false,
            steps: 0,
            outline: None,
            points: 0,
        };
        proof {
            lemma_follows_opened(before, self.buffer@, next);
        }
        self.loops.push(next);
        self.state.travelled = false;
    }
}

/// A survey and a rewrite that measure the same of a move, with their extruders
/// at the same place, agree on whether it lays a bead. Every cell a rewrite asks
/// about is therefore one the survey has drawn.
pub proof fn a_survey_and_a_rewrite_agree_on_what_is_laid(
    state: State,
    line: Line,
    m: Measures,
    surveyed: scan::Measures,
)
    requires
        line.code == Code::Move || line.code == Code::Arc,
        surveyed.e == m.e,
        surveyed.fed == m.fed,
    ensures
        record(state, line, m).extrudes == scan::extrudes(state.extruder, line, surveyed),
{
}

/// A line outside a wall is held back only while no loop is, and while fewer
/// lines than the tail may have are.
pub proof fn a_tail_is_bounded(
    state: State,
    layer_markers: bool,
    buffered: nat,
    loops: nat,
    line: Line,
    m: Measures,
)
    requires
        !wall(state.feature),
        routed(state, layer_markers, buffered, loops, line, m).1 == Route::Hold,
    ensures
        loops == 0,
        buffered < TAIL,
{
}

/// Only a layer marker and, in a file without any, a move that rises begins
/// another layer.
pub proof fn a_layer_begins_only_at_a_marker_or_a_rise(
    state: State,
    layer_markers: bool,
    buffered: nat,
    loops: nat,
    line: Line,
    m: Measures,
)
    requires
        mark_of(text::bytes(line.raw@)) !is Layer,
        layer_markers || !(line.code == Code::Move && line.z is Some && state.layer_z.below(m.z)),
    ensures
        routed(state, layer_markers, buffered, loops, line, m).0.layer == state.layer,
{
}

} // verus!
