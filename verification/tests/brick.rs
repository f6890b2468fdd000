use bricklayers::brick::Pass;
use bricklayers::brick::climb::RAMP;
use bricklayers::brick::flow::Geometry;
use bricklayers::brick::flow::derived;
use bricklayers::brick::flow::slope;
use bricklayers::brick::pass::Config as Settings;
use bricklayers::brick::pass::Measures;
use bricklayers::brick::pass::Profile;
use bricklayers::brick::pass::Route;
use bricklayers::brick::schedule::Emission;
use bricklayers::brick::schedule::Lift;
use bricklayers::brick::schedule::Step;
use bricklayers::brick::stamp::write_stamp;
use bricklayers::brick::stamp::write_z_move;
use bricklayers::double::Double;
use bricklayers::footprint::MAX_CELLS;
use bricklayers::footprint::Walk;
use bricklayers::footprint::cells;
use bricklayers::gcode::Line;
use bricklayers::gcode::MAX_FIXED_DECIMALS;
use bricklayers::gcode::Number;
use bricklayers::gcode::Relocation;
use bricklayers::gcode::Word;
use bricklayers::gcode::fixed;
use bricklayers::gcode::line_text;
use bricklayers::gcode::write_e;
use bricklayers::report::widened;
use bricklayers::scan::Height;
use bricklayers::scan::Measures as Figures;
use bricklayers::scan::Scan;
use bricklayers::scan::Survey;
use bricklayers::scan::Width;
use bricklayers::scan::brick_stamp;
use bricklayers::scan::stated_height;
use bricklayers::scan::width;
use std::f64::consts::TAU;
use std::io::BufRead;
use std::io::Write;
use std::io;

/// Powers of ten a double names exactly, which is what makes the single
/// division in [`worth`] correctly rounded.
const POWERS_OF_TEN: [f64; 16] = [
    1e0, 1e1, 1e2, 1e3, 1e4, 1e5, 1e6, 1e7, 1e8, 1e9, 1e10, 1e11, 1e12, 1e13, 1e14, 1e15,
];

fn double(value: f64) -> Double {
    Double::from_bits(value.to_bits())
}

fn float(value: Double) -> f64 {
    f64::from_bits(value.to_bits())
}

/// The value of a word, and zero where the line has none.
fn worth(line: &Line<'_>, word: Option<Word>) -> f64 {
    let Some(word) = word else {
        return 0.0;
    };
    match word.value {
        Number::Exact {
            negative,
            mantissa,
            decimals,
        } => {
            let value = mantissa as f64 / POWERS_OF_TEN[usize::from(decimals)];
            if negative {
                -value
            } else {
                value
            }
        }
        Number::Handed => line.raw[word.start..word.end].parse().unwrap_or(0.0),
    }
}

/// The digits of a value with `decimals` of them after the point, which are
/// those the standard formatter writes.
///
/// Scaling to an integer is only trusted where the one rounding it took provably
/// cannot have crossed the half-way point it is about to be rounded at.
fn digits(value: f64, decimals: usize) -> Vec<u8> {
    if decimals <= usize::from(MAX_FIXED_DECIMALS) {
        let scaled = value * POWERS_OF_TEN[decimals];
        let rounded = scaled.round();
        if !scaled.is_nan()
            && scaled.abs() < 1e15
            && (scaled - rounded).abs() < 0.5 - scaled.abs() * (4.0 * f64::EPSILON)
        {
            return fixed(
                value.is_sign_negative(),
                rounded.abs() as u64,
                decimals as u8,
            );
        }
    }
    format!("{value:.decimals$}").into_bytes()
}

/// The number some text states.
fn stated(text: &[u8]) -> Option<f64> {
    std::str::from_utf8(text).ok()?.parse().ok()
}

/// A length in mm, where some text states one.
fn stated_length(text: &[u8]) -> Option<f64> {
    stated(text).filter(|value| double(*value).is_a_height())
}

/// A width in mm, which may be stated as a share of the nozzle.
fn bead_width(text: &[u8], nozzle: Option<f64>) -> Option<f64> {
    match width(text) {
        (Width::Length, number) => stated_length(number),
        (Width::Share, number) => Some(stated_length(number)? / 100.0 * nozzle?),
    }
}

/// Grid cell, in mm.
///
/// This is the tolerance of the whole test: two beads count as stacked when
/// their paths share a cell. A bead is around 0.45 mm wide, so at 0.3 mm two
/// beads that share a cell overlap by more than half their width, and two that
/// do not are more than a bead apart. Measured over three real slices, 96.3 to
/// 96.7% of wall path has a wall running within 0.2 mm of it on the layer
/// above and the rest is spread from 0.4 mm out to 3 mm, so anything in that
/// window separates a column that continues from one that ends.
const CELL: f64 = 0.3;

/// Sampling step along an arc. Half a cell, so no cell the curve crosses can be
/// stepped over, which is what makes the cells a property of the path rather
/// than of where the sampling happened to start.
const STEP: f64 = CELL / 2.0;

/// Grid coordinates per mm.
const PER_MM: f64 = 1.0 / CELL;

/// The centre and direction of a `G2`/`G3`, taken from its `I`/`J` offsets.
#[derive(Clone, Copy, Debug)]
struct Arc {
    i: f64,
    j: f64,
    clockwise: bool,
}

/// The places of the grid a move passes through, in order.
///
/// Arcs are followed round rather than cut across. A slicer with arc fitting on
/// draws a whole ring as two or three `G2`s, and taking their chords would say
/// the ring covers nothing at all.
fn trace(from: (f64, f64), to: (f64, f64), arc: Option<Arc>) -> Vec<(i32, i32)> {
    if let Some((centre, radius, start, sweep)) = arc.and_then(|arc| turn(from, to, arc)) {
        let steps = samples(radius * sweep.abs());
        let mut path = vec![(floor(from.0 * PER_MM), floor(from.1 * PER_MM))];
        for step in 1..steps {
            let angle = start + sweep * step as f64 / steps as f64;
            path.push((
                floor((centre.0 + radius * angle.cos()) * PER_MM),
                floor((centre.1 + radius * angle.sin()) * PER_MM),
            ));
        }
        path.push((floor(to.0 * PER_MM), floor(to.1 * PER_MM)));
        return path;
    }
    straight(from, to)
}

/// Walks the cells a straight move crosses, stepping over one grid line at a
/// time rather than sampling: it visits exactly the cells the segment touches,
/// and the inner loop is a comparison and an addition.
fn straight(from: (f64, f64), to: (f64, f64)) -> Vec<(i32, i32)> {
    let (x0, y0) = (from.0 * PER_MM, from.1 * PER_MM);
    let (x1, y1) = (to.0 * PER_MM, to.1 * PER_MM);
    let (column, row) = (floor(x0), floor(y0));
    let mut path = vec![(column, row)];
    if !(x0.is_finite() && y0.is_finite() && x1.is_finite() && y1.is_finite()) {
        return path;
    }

    let (dx, dy) = (x1 - x0, y1 - y0);
    let mut walk = Walk::new((column, row), (floor(x1), floor(y1)), dx > 0.0, dy > 0.0);
    // How far along the move the next grid line each way lies, as a fraction of
    // the whole move, and how far apart the ones after it are.
    let mut next_column = boundary(x0, dx, column);
    let mut next_row = boundary(y0, dy, row);
    let along_column = (1.0 / dx).abs();
    let along_row = (1.0 / dy).abs();
    while !walk.is_over() {
        let sideways = next_column < next_row;
        if sideways {
            next_column += along_column;
        } else {
            next_row += along_row;
        }
        walk.go(sideways);
        path.push(walk.here());
    }
    path
}

/// How far along a move its first grid line lies, as a fraction of the move.
fn boundary(at: f64, delta: f64, cell: i32) -> f64 {
    if delta == 0.0 {
        return f64::INFINITY;
    }
    let edge = if delta > 0.0 {
        cell as f64 + 1.0
    } else {
        cell as f64
    };
    (edge - at) / delta
}

/// Centre, radius, opening angle and swept angle of an arc, or `None` where the
/// `I`/`J` offsets do not describe one.
fn turn(from: (f64, f64), to: (f64, f64), arc: Arc) -> Option<((f64, f64), f64, f64, f64)> {
    let centre = (from.0 + arc.i, from.1 + arc.j);
    let radius = arc.i.hypot(arc.j);
    if !radius.is_finite() || radius <= 0.0 {
        return None;
    }
    let start = (from.1 - centre.1).atan2(from.0 - centre.0);
    let end = (to.1 - centre.1).atan2(to.0 - centre.0);
    let mut sweep = if arc.clockwise {
        start - end
    } else {
        end - start
    };
    if !sweep.is_finite() {
        return None;
    }
    // Both angles come out of `atan2` in (-π, π], so their difference is
    // already inside one turn and a single wrap settles it. A full circle
    // arrives as zero, which is the one case that has to become a whole turn
    // rather than nothing.
    if sweep <= 0.0 {
        sweep += TAU;
    }
    Some((
        centre,
        radius,
        start,
        if arc.clockwise { -sweep } else { sweep },
    ))
}

fn samples(length: f64) -> usize {
    if !length.is_finite() || length <= STEP {
        return 1;
    }
    ((length / STEP).ceil() as usize).clamp(1, MAX_CELLS)
}

/// `as` saturates, and a coordinate that is not a number lands in a corner of
/// the grid with it instead of in somebody else's cell.
fn floor(grid: f64) -> i32 {
    if grid.is_nan() {
        return i32::MIN;
    }
    grid.floor() as i32
}

/// Below this the two edges at a vertex are treated as one straight line, since
/// their intersection is too far away to be a corner. In mm of cross product
/// between two unit vectors, so it is the sine of the angle between them: one
/// ten-thousandth of a radian.
const STRAIGHT: f64 = 1e-4;

/// A miter longer than this many times the offset is a spike, and the vertex
/// falls back to a plain normal offset rather than being thrown out to a point
/// no bead was ever laid at.
const MITER_LIMIT: f64 = 4.0;

/// How far apart an arc's two ends may sit on the circle it is drawn round,
/// once both have been moved, before the loop is left as the slicer wrote it.
///
/// An arc is commanded as a centre and a target, so a printer sweeps the
/// radius its start point sits at and steps to the target at the end. Where an
/// arc runs into another arc at a corner the two want their shared vertex on
/// different circles and one of them has to give, which leaves exactly that
/// step. Measured over 1788 arcs of two real slices, 90% of them land within
/// 1 µm of their own radius and the tail is a handful of sharp arc-to-arc
/// corners; one bead width of a tenth of a millimetre is far past any of them
/// and still under what the loop would suffer by not being moved at all.
const ARC_SLACK: f64 = 0.01;

/// One edge of a loop: the straight move a slicer usually emits, or the `G2`
/// or `G3` an arc-fitted one leaves in its place.
#[derive(Clone, Copy, Debug, PartialEq)]
enum Edge {
    Straight,
    /// Absolute centre of the arc, and which way it turns. A `G2` is
    /// clockwise, which puts the material on the far side of the centre.
    Arc {
        centre: (f64, f64),
        clockwise: bool,
    },
}

impl Edge {
    /// Unit direction of travel at `at`, for an edge running `from` to `to`.
    ///
    /// An arc's is at right angles to its radius, which is what makes a
    /// corner between an arc and anything else the same calculation as a
    /// corner between two straight moves.
    fn tangent(&self, at: (f64, f64), from: (f64, f64), to: (f64, f64)) -> Option<(f64, f64)> {
        match self {
            Edge::Straight => direction(from, to),
            Edge::Arc {
                centre, clockwise, ..
            } => {
                let radial = direction(*centre, at)?;
                Some(match clockwise {
                    true => (radial.1, -radial.0),
                    false => (-radial.1, radial.0),
                })
            }
        }
    }

    /// The circle this edge is drawn on once it has been offset, as centre and
    /// radius, given a point it passes through. Left of travel is toward the
    /// centre for an anticlockwise arc and away from it for a clockwise one.
    fn circle(&self, at: (f64, f64), delta: f64) -> Option<((f64, f64), f64)> {
        let Edge::Arc {
            centre, clockwise, ..
        } = self
        else {
            return None;
        };
        let radius = (at.0 - centre.0).hypot(at.1 - centre.1);
        let moved = match clockwise {
            true => radius + delta,
            false => radius - delta,
        };
        (moved > 0.0).then_some((*centre, moved))
    }
}

/// Offsets a closed loop `delta` to the left of its direction of travel.
///
/// `points` are the loop's vertices in print order, without repeating the first
/// as the last, and `edges[k]` is how the loop travels from `points[k]` to the
/// point after it. Returns `None` where the loop is too short to have an
/// inside, which is every open fragment a thin wall broke into, and where an
/// arc cannot be moved without distorting the circle it was drawn on.
fn offset_loop(points: &[(f64, f64)], edges: &[Edge], delta: f64) -> Option<Vec<(f64, f64)>> {
    if points.len() < 3 || edges.len() != points.len() || !delta.is_finite() {
        return None;
    }
    // An arc no wider than the offset would be turned inside out by it, and a
    // bead drawn at a negative radius goes round the far side of the centre.
    let drawable = points.iter().zip(edges).all(|(at, edge)| match edge {
        Edge::Straight => true,
        Edge::Arc { .. } => edge.circle(*at, delta).is_some(),
    });
    if !drawable {
        return None;
    }

    let count = points.len();
    let mut moved = Vec::with_capacity(count);
    for index in 0..count {
        let previous = points[(index + count - 1) % count];
        let current = points[index];
        let next = points[(index + 1) % count];
        let before = edges[(index + count - 1) % count];
        let after = edges[index];

        let (Some(into), Some(out_of)) = (
            before.tangent(current, previous, current),
            after.tangent(current, current, next),
        ) else {
            // A repeated point names no direction, so the vertex stays put
            // rather than being offset along an arbitrary normal.
            moved.push(current);
            continue;
        };
        let landed = corner(current, into, out_of, delta);

        // A vertex an arc starts from decides the radius that whole arc is
        // swept at, so it is pulled onto the circle the arc will be drawn on;
        // the miter is already within a few nanometres of it wherever the two
        // edges meet smoothly. A vertex only an arc arrives at is worth the
        // same treatment, since the straight move after it can start
        // anywhere.
        let circle = after
            .circle(current, delta)
            .or(before.circle(current, delta));
        moved.push(match circle {
            Some((centre, radius)) => project(landed, centre, radius).unwrap_or(landed),
            None => landed,
        });
    }

    keeps_its_arcs(&moved, edges).then_some(moved)
}

/// Whether every arc of an offset loop still runs round one circle.
///
/// Two arcs meeting at a corner want their shared vertex on two different
/// circles, so one of them ends off its own; past [`ARC_SLACK`] the loop is
/// better left where the slicer put it than drawn at a radius it was never
/// given. Public because a caller that adjusts a vertex afterwards — the one
/// closing a loop on its seam — has to ask again.
fn keeps_its_arcs(moved: &[(f64, f64)], edges: &[Edge]) -> bool {
    let count = moved.len();
    edges.iter().enumerate().all(|(index, edge)| {
        let Edge::Arc { centre, .. } = edge else {
            return true;
        };
        let span = |at: (f64, f64)| (at.0 - centre.0).hypot(at.1 - centre.1);
        let swept = span(moved[index]);
        swept > 0.0 && (span(moved[(index + 1) % count]) - swept).abs() <= ARC_SLACK
    })
}

/// `point` pulled onto the circle of `radius` about `centre`, along the radius
/// it already sits on.
fn project(point: (f64, f64), centre: (f64, f64), radius: f64) -> Option<(f64, f64)> {
    let out = direction(centre, point)?;
    Some((centre.0 + out.0 * radius, centre.1 + out.1 * radius))
}

/// How far the nozzle travels from `from` to `to` along `edge`, in mm. An arc
/// is followed round rather than cut across, so a bead's flow per mm survives
/// the loop being moved.
fn edge_length(from: (f64, f64), to: (f64, f64), edge: Edge) -> f64 {
    let chord = (to.0 - from.0).hypot(to.1 - from.1);
    let Edge::Arc { centre, clockwise } = edge else {
        return chord;
    };
    let start = (from.0 - centre.0, from.1 - centre.1);
    let end = (to.0 - centre.0, to.1 - centre.1);
    let radius = start.0.hypot(start.1);
    if radius <= 0.0 || radius.is_nan() {
        return chord;
    }
    let cross = start.0 * end.1 - start.1 * end.0;
    let dot = start.0 * end.0 + start.1 * end.1;
    let mut swept = cross.atan2(dot);
    if clockwise {
        swept = -swept;
    }
    if swept <= 0.0 {
        swept += std::f64::consts::TAU;
    }
    radius * swept
}

/// The unit vector from `from` to `to`, or `None` where the two coincide.
fn direction(from: (f64, f64), to: (f64, f64)) -> Option<(f64, f64)> {
    let (dx, dy) = (to.0 - from.0, to.1 - from.1);
    let length = dx.hypot(dy);
    (length > 0.0 && length.is_finite()).then(|| (dx / length, dy / length))
}

/// Left of the direction of travel.
fn normal(direction: (f64, f64)) -> (f64, f64) {
    (-direction.1, direction.0)
}

/// Where a vertex lands once both of the edges meeting at it have been moved
/// `delta` to their left.
///
/// The two offset edges are extended until they cross, which is what keeps a
/// corner sharp instead of rounding it off. Where they run parallel there is no
/// crossing and the vertex simply follows the shared normal.
fn corner(at: (f64, f64), into: (f64, f64), out_of: (f64, f64), delta: f64) -> (f64, f64) {
    let before = normal(into);
    let after = normal(out_of);
    let turn = into.0 * out_of.1 - into.1 * out_of.0;

    if turn.abs() < STRAIGHT {
        return (at.0 + before.0 * delta, at.1 + before.1 * delta);
    }

    // Both offset lines pass through the vertex displaced along their own
    // normal; solving for where they meet gives the mitered corner.
    let start = (at.0 + before.0 * delta, at.1 + before.1 * delta);
    let end = (at.0 + after.0 * delta, at.1 + after.1 * delta);
    let (gap_x, gap_y) = (end.0 - start.0, end.1 - start.1);
    let along = (gap_x * out_of.1 - gap_y * out_of.0) / turn;

    let landed = (start.0 + into.0 * along, start.1 + into.1 * along);
    let reach = (landed.0 - at.0).hypot(landed.1 - at.1);
    if reach > delta.abs() * MITER_LIMIT {
        // A hairpin throws the miter out to a spike far from any bead the
        // slicer laid, so the vertex keeps to the average of the two normals.
        let (mid_x, mid_y) = (before.0 + after.0, before.1 + after.1);
        let length = mid_x.hypot(mid_y);
        if length <= 0.0 {
            return at;
        }
        return (at.0 + mid_x / length * delta, at.1 + mid_y / length * delta);
    }
    landed
}

/// Extra flow a wall takes where its layer is as thick as the nozzle, as a
/// fraction.
///
/// Small on purpose: it is paid on every wall of the part, and it also decides
/// how far the visible wall is drawn in, which no one wants measured in anything
/// but microns. At the commonest profile of all — a 0.2 mm layer through a
/// 0.4 mm nozzle, half as thick as it is wide — it works out at 2.5% over.
const DEFAULT_EXTRA_FLOW: f64 = 0.05;

/// What the extra flow accepts, as a fraction.
///
/// Zero is the raise and nothing else, with every bead metered exactly as it
/// was sliced. The top of the range is ten times [`DEFAULT_EXTRA_FLOW`], which
/// is for sweeping a test print rather than for printing with.
const MIN_EXTRA_FLOW: f64 = 0.0;
const MAX_EXTRA_FLOW: f64 = 0.5;

/// The profile every measurement behind this tool was taken on: a 0.4 mm nozzle
/// laying a 0.45 mm internal wall at 0.2 mm layers.
const REFERENCE_NOZZLE: f64 = 0.4;
const REFERENCE_HEIGHT: f64 = 0.2;
const REFERENCE_WIDTH: f64 = 0.45;

/// Centre to centre distance a slicer lays neighbouring beads at, in mm.
///
/// A bead is a rectangle with a half-round cap at each side, so two of them laid
/// `width` apart would leave the corner between the caps empty. Slicers close
/// that by pulling them together until the overlap in the middle pays for the
/// corners, which is `width - height * (1 - pi/4)`.
fn bead_spacing(height: f64, width: f64) -> f64 {
    width - height * (1.0 - std::f64::consts::FRAC_PI_4)
}

/// Most flow a wall of this geometry can be metered at, as a multiple of what it
/// was sliced for.
///
/// A bead metered at `flow` is `flow * spacing + height * (1 - pi/4)` wide,
/// because its area is `flow` times the `height * spacing` the slicer meant and
/// its own round caps cost it the rest. The loop beside it is one spacing away,
/// so at twice the spacing this bead's edge lands on that loop's centre — past
/// there it is swallowing its neighbour rather than filling the corner between
/// them.
///
/// It comes out under 1 only where the file states a width the slicer could not
/// have laid at that height, and such a wall takes no extra at all.
fn flow_ceiling(height: f64, spacing: f64) -> f64 {
    2.0 - height * (1.0 - std::f64::consts::FRAC_PI_4) / spacing
}

/// The geometry of a layer of `height` printed at `width`, where a layer as
/// thick as the nozzle would take `extra` over.
///
/// The corner the spacing leaves between two beads is `height` tall and closes
/// as they are pushed together, so the share of a bead sitting in one is
/// proportional to `height / spacing`. Against a flat plane the nozzle presses
/// those corners closed on the way past; over a staggered seam half of each is
/// out of its reach, and that is what this pays for.
///
/// `extra` sets the slope and the geometry sets where on it this layer sits.
/// The anchor is the reference profile, whose layer is half its nozzle, so
/// `extra` there gives half of itself. A file that states no width is metered as
/// if it were that profile.
fn wall_geometry(height: f64, width: Option<f64>, extra: f64) -> Geometry {
    let extra = float(slope(
        double(extra),
        double(MIN_EXTRA_FLOW),
        double(MAX_EXTRA_FLOW),
        double(DEFAULT_EXTRA_FLOW),
    ));
    let at_reference = extra * REFERENCE_HEIGHT / REFERENCE_NOZZLE;
    let spacing = bead_spacing(height, width.unwrap_or(REFERENCE_WIDTH));
    let junction =
        (height / spacing) / (REFERENCE_HEIGHT / bead_spacing(REFERENCE_HEIGHT, REFERENCE_WIDTH));
    Geometry {
        height: double(height),
        width: width.map(double),
        spacing: double(spacing),
        asked: double(1.0 + at_reference * junction),
        ceiling: double(flow_ceiling(height, spacing)),
        reference: double(1.0 + at_reference),
        sliced: double(1.0),
    }
}

/// Layer height assumed when the file says nothing useful.
const FALLBACK_LAYER_HEIGHT: f64 = 0.2;

/// How far two layers' heights may differ and still count as the same, in mm.
///
/// Subtracting one printed Z from another leaves float noise, so a file sliced
/// at a fixed height does not measure at exactly that height twice. A micron is
/// also below what a Z axis can resolve, so two layers this close are the same
/// layer height in every sense that reaches the print.
const SAME_HEIGHT: f64 = 0.001;

/// The next line of a stream, without its terminator.
fn next_line<R: BufRead>(reader: &mut R, buffer: &mut Vec<u8>) -> io::Result<Option<String>> {
    buffer.clear();
    if reader.read_until(b'\n', buffer)? == 0 {
        return Ok(None);
    }
    Ok(Some(line_text(buffer)))
}

/// Surveys a stream, reading it once and keeping none of it.
fn read_survey<R: BufRead>(mut reader: R) -> io::Result<Survey> {
    let mut scan = Scan::new();
    let mut buffer = Vec::new();
    while let Some(raw) = next_line(&mut reader, &mut buffer)? {
        feed_scan(&mut scan, &raw);
    }
    let rise = rise(&scan);
    let ended = scan.end(double(rise));
    let (lowest, highest) = ended.extremes();
    let varies = float(highest) - float(lowest) > SAME_HEIGHT;
    Ok(ended.finish(varies))
}

/// How far the open layer's floor is above the layer before it. Floating point:
/// the difference of two doubles.
fn rise(scan: &Scan) -> f64 {
    match scan.floors() {
        (Some(floor), Some(previous)) => float(floor) - float(previous),
        _ => 0.0,
    }
}

/// Feeds one line to a survey, with everything measured of it.
fn feed_scan(scan: &mut Scan, raw: &str) {
    assert!(scan.has_room(), "more layers than can be counted");
    let line = Line::parse(raw);
    let at = scan.place();
    let from = (float(at.0), float(at.1));
    let to = (
        line.x.map_or(from.0, |_| worth(&line, line.x)),
        line.y.map_or(from.1, |_| worth(&line, line.y)),
    );
    let path = if line.draws() && line.e.is_some() {
        trace(from, to, arc(&line))
    } else {
        Vec::new()
    };
    let z = worth(&line, line.z);
    let e = worth(&line, line.e);
    let measures = Figures {
        height: line
            .marker()
            .and_then(stated_height)
            .and_then(|height| height.parse().ok())
            .map(double),
        rise: double(rise(scan)),
        x: double(to.0),
        y: double(to.1),
        z: double(z),
        e: double(e),
        f: double(worth(&line, line.f)),
        fed: double(e - float(scan.filament())),
        step: ((z - float(scan.height())) * 1000.0).round() as i64,
        path: &path,
    };
    scan.feed(&line, &measures);
}

/// The arc a line draws.
fn arc(line: &Line<'_>) -> Option<Arc> {
    line.arc().map(|(i, j, clockwise)| Arc {
        i: worth(line, Some(i)),
        j: worth(line, Some(j)),
        clockwise,
    })
}

/// The layer height a survey settled on, in mm.
fn survey_layer_height(survey: &Survey) -> f64 {
    match survey.layer_height {
        Height::Declared(height) => float(height),
        Height::Measured(step) => step as f64 / 1000.0,
        Height::Fallback => FALLBACK_LAYER_HEIGHT,
    }
}

/// Nozzle diameter the file's settings state, in mm.
fn nozzle(survey: &Survey) -> Option<f64> {
    survey.nozzle.as_deref().and_then(stated_length)
}

/// Width the file's settings state for the visible wall, in mm.
fn skin_width(survey: &Survey) -> Option<f64> {
    bead_width(survey.skin_width.as_deref()?, nozzle(survey))
}

/// Width the file's settings state for the hidden walls, in mm.
fn wall_width(survey: &Survey) -> Option<f64> {
    bead_width(survey.wall_width.as_deref()?, nozzle(survey))
}

/// Feedrate for an inserted Z move when the file never shows one, in mm/min.
/// 12 mm/s is slow enough for any Z axis, including a delta moving all three
/// towers at once.
const FALLBACK_Z_FEEDRATE: f64 = 720.0;

/// How far apart two loops may run and still count as neighbours in one wall,
/// in mm.
///
/// One loop of a wall is the last one offset inwards, so they run an extrusion
/// width apart. This is a generous ceiling on that: the widest bead a 1.2 mm
/// nozzle lays down. Erring low only splits a wall, which costs the stagger;
/// erring high staggers loops that never touch.
const MAX_LOOP_GAP: f64 = 2.0;

/// How close two of a loop's vertices have to be to count as the same point, in
/// mm. G-code coordinates carry three decimals, so anything under a micron is
/// the same place written twice.
const COINCIDENT: f64 = 1e-6;

/// What a rewrite did, for reporting.
#[derive(Clone, Copy, Debug)]
struct Stats {
    layer_height: f64,
    /// False when no layer height was given and the file gave no hint.
    layer_height_detected: bool,
    /// Smallest and largest half-layer any raise was taken from, or `None` where
    /// nothing was raised. The two differ only on an adaptive slice.
    raise: Option<(Double, Double)>,
    layers: usize,
    loops: usize,
    raised: usize,
    /// Loops laid flat because nothing stood on them, which would otherwise have
    /// been buried under a bead metered for a full layer.
    capped: usize,
    /// Filament the output calls for, in mm of stock. Retractions are ignored.
    filament: f64,
    /// The part of `filament` laid down by raised loops.
    raised_filament: f64,
    /// The part of `filament` that the flow multiplier added over the flow the
    /// geometry alone asks for.
    multiplier_filament: f64,
    /// Least and most flow any wall was metered at. The two differ only where
    /// the slicer varied the layer height.
    flow: Option<(Double, Double)>,
}

/// Where a buffered move has to end up instead, and what its bead's length
/// changed by getting there, so flow per mm stays what the slicer metered.
#[derive(Clone, Copy)]
struct Moved {
    to: (f64, f64),
    /// Where the centre of an arc now sits relative to its start, which moved
    /// with the rest of the loop. `None` for a straight move.
    centre: Option<(f64, f64)>,
    ratio: f64,
}

struct Rewrite<'a, W: Write> {
    pass: Pass<'a>,
    out: W,
    raise: Option<(Double, Double)>,
    flow: Option<(Double, Double)>,
    filament: f64,
    raised_filament: f64,
    multiplier_filament: f64,
}

/// Rewrites a G-code stream, reading and writing a line at a time. `survey`
/// comes from an earlier pass over the same stream.
fn stream<R: BufRead, W: Write>(
    mut reader: R,
    writer: W,
    config: &Settings,
    survey: &Survey,
) -> io::Result<Stats> {
    let profile = Profile {
        layer_height: double(survey_layer_height(survey)),
        z_feedrate: double(FALLBACK_Z_FEEDRATE),
        skin_width: skin_width(survey).map(double),
        wall_width: wall_width(survey).map(double),
        reference_width: double(REFERENCE_WIDTH),
    };
    let mut rewrite = Rewrite {
        pass: Pass::new(*config, survey, profile),
        out: writer,
        raise: None,
        flow: None,
        filament: 0.0,
        raised_filament: 0.0,
        multiplier_filament: 0.0,
    };
    let mut buffer = Vec::new();
    while let Some(raw) = next_line(&mut reader, &mut buffer)? {
        rewrite.feed(&raw)?;
    }
    rewrite.flush()?;
    rewrite.out.flush()?;

    Ok(Stats {
        layer_height: float(rewrite.pass.height),
        layer_height_detected: config.layer_height.is_some() || survey.layer_height_detected(),
        raise: rewrite.raise,
        layers: survey.layers,
        loops: rewrite.pass.loops_seen,
        raised: rewrite.pass.raised,
        capped: rewrite.pass.capped,
        filament: rewrite.filament,
        raised_filament: rewrite.raised_filament,
        multiplier_filament: rewrite.multiplier_filament,
        flow: rewrite.flow,
    })
}

/// A place of the plane. Floating point: its coordinates are doubles.
fn point(at: (Double, Double)) -> (f64, f64) {
    (float(at.0), float(at.1))
}

fn span(from: (f64, f64), to: (f64, f64)) -> f64 {
    (to.0 - from.0).hypot(to.1 - from.1)
}

impl<W: Write> Rewrite<'_, W> {
    fn feed(&mut self, raw: &str) -> io::Result<()> {
        let line = Line::parse(raw);
        if self.pass.must_flush(&line) {
            self.flush()?;
        }
        assert!(
            self.pass.state.layer < usize::MAX && self.pass.buffer.len() < usize::MAX,
            "more layers or lines than can be counted"
        );
        let e = worth(&line, line.e);
        let measures = Measures {
            x: double(worth(&line, line.x)),
            y: double(worth(&line, line.y)),
            z: double(worth(&line, line.z)),
            e: double(e),
            f: double(worth(&line, line.f)),
            i: double(worth(&line, line.i)),
            j: double(worth(&line, line.j)),
            fed: double(e - float(self.pass.state.extruder.input)),
        };
        match self.pass.take(&line, &measures) {
            Route::Push => self.push(raw),
            Route::Hold => Ok(()),
            Route::Through => {
                // What is held back has to be written out before the line that
                // ended it.
                self.flush()?;
                self.emit(&line, &measures)
            }
        }
    }

    /// Writes a line that is let through. Floating point: the filament it asks
    /// for is a difference of doubles.
    fn emit(&mut self, line: &Line<'_>, measures: &Measures) -> io::Result<()> {
        let extruder = self.pass.state.extruder;
        let delta = if extruder.is_absolute() {
            float(measures.fed)
        } else {
            float(measures.e)
        };
        if line.draws() && line.e.is_some() && delta > 0.0 {
            self.filament += delta;
        }
        let sum = double(float(extruder.output) + delta);
        match self.pass.meter_through(line, measures, sum) {
            Emission::Copied => self.push(line.raw),
            Emission::Metered(value) => {
                let mut text = Vec::new();
                line.write_e(&mut text, &digits(float(value), 5));
                text.push(b'\n');
                self.out.write_all(&text)
            }
        }
    }

    /// Writes out the region that has been held back.
    fn flush(&mut self) -> io::Result<()> {
        if self.pass.buffer.is_empty() {
            return Ok(());
        }
        self.pass.close();
        let near = self.neighbours();
        self.pass.group(&near);
        let gaps = self.gaps();
        self.pass.number_loops(&gaps);
        let paths = self.paths();
        self.pass.mark_columns(&paths);
        let moved = self.move_walls();
        let (lifts, factors) = self.meter_loops();

        let count = self.pass.loops.len();
        assert!(
            self.pass.loops_seen.checked_add(count).is_some()
                && self.pass.raised.checked_add(count).is_some()
                && self.pass.capped.checked_add(count).is_some(),
            "more loops than can be counted"
        );
        for step in self.pass.schedule(&lifts) {
            match step {
                Step::Replay { index, flow } => {
                    let factor = flow.map_or(1.0, |current| factors[current]);
                    self.replay(index, factor, moved[index])?;
                }
                Step::Ride { index, z, raised } => {
                    self.ride(index, float(z), raised, moved[index])?;
                }
                Step::MoveZ { z, raised, resume } => self.move_z(float(z), raised, resume)?,
            }
        }
        self.pass.clear();
        Ok(())
    }

    /// The place a buffered line lays a bead at.
    fn bead(&self, index: usize) -> Option<(f64, f64)> {
        let line = &self.pass.buffer[index];
        line.xy.filter(|_| line.extrudes).map(point)
    }

    /// The places of a loop that stand for all of it.
    fn probes(&self, current: usize) -> Vec<(f64, f64)> {
        let lines = self.pass.probes(current);
        lines.into_iter().filter_map(|at| self.bead(at)).collect()
    }

    /// The points a loop lays down, in print order.
    fn points(&self, current: usize) -> impl Iterator<Item = (f64, f64)> + '_ {
        let current = &self.pass.loops[current];
        (current.body..current.end).filter_map(|at| self.bead(at))
    }

    /// Which loops run beside each other, the earlier one first.
    fn neighbours(&self) -> Vec<bool> {
        let count = self.pass.loops.len();
        let mut near = vec![false; count * count];
        for current in 0..count {
            let probes = self.probes(current);
            for previous in 0..current {
                near[previous * count + current] = self.adjacent(previous, current, &probes);
            }
        }
        near
    }

    /// True when any part of the two loops runs within [`MAX_LOOP_GAP`] of the
    /// other. Floating point: it compares distances.
    fn adjacent(&self, previous: usize, current: usize, probes: &[(f64, f64)]) -> bool {
        // Cheap rejection first: most pairs are a travel apart, and comparing
        // their extents settles that without touching either path.
        let loops = &self.pass.loops;
        let (Some(before), Some(now)) = (loops[previous].outline, loops[current].outline) else {
            return false;
        };
        let apart = (float(before.left) - float(now.right))
            .max(float(now.left) - float(before.right))
            .max(float(before.bottom) - float(now.top))
            .max(float(now.bottom) - float(before.top));
        if apart > MAX_LOOP_GAP {
            return false;
        }
        let limit = MAX_LOOP_GAP * MAX_LOOP_GAP;
        probes.iter().any(|(x, y)| {
            self.points(previous).any(|(px, py)| {
                let (dx, dy) = (px - x, py - y);
                dx * dx + dy * dy <= limit
            })
        })
    }

    /// How close each loop comes to the visible wall of its contour, squared,
    /// where the order of the file does not say. Floating point: it measures
    /// distances.
    fn gaps(&self) -> Vec<Double> {
        (0..self.pass.loops.len())
            .map(|current| match self.pass.measured_from(current) {
                Some(from) => self
                    .probes(current)
                    .into_iter()
                    .map(|(x, y)| {
                        self.points(from)
                            .map(|(px, py)| (px - x).powi(2) + (py - y).powi(2))
                            .fold(f64::INFINITY, f64::min)
                    })
                    .fold(f64::INFINITY, f64::min),
                None => 0.0,
            })
            .map(double)
            .collect()
    }

    /// The cells each loop's path runs through.
    fn paths(&self) -> Vec<Vec<u32>> {
        (0..self.pass.loops.len())
            .map(|current| {
                let mut path = Vec::new();
                for segment in self.pass.segments(current) {
                    let arc = segment.arc.map(|arc| Arc {
                        i: float(arc.i),
                        j: float(arc.j),
                        clockwise: arc.clockwise,
                    });
                    cells(&trace(point(segment.from), point(segment.to), arc), &mut path);
                }
                path
            })
            .collect()
    }

    /// Height of the layer being printed.
    fn height(&self) -> f64 {
        float(self.pass.height_at(self.pass.state.layer))
    }

    /// The geometry of this layer's walls, and with it the flow they take.
    fn geometry(&self) -> Geometry {
        let config = &self.pass.config;
        wall_geometry(
            self.height(),
            self.pass.wall_width.map(float),
            float(config.extra_flow),
        )
    }

    /// The flow the walls of this layer take. Read per layer rather than once
    /// per file, so a slice whose layers vary meters each of them for the seam
    /// it actually has.
    fn wall_flow(&self) -> f64 {
        float(self.pass.config.flow_at(&self.geometry()))
    }

    /// How far the visible wall is brought toward the loop behind it, in mm.
    /// Floating point: half of the width the flow adds.
    ///
    /// A bead widens about its own centre, so half of the width it gains goes
    /// outward; moving it in by that much leaves its commanded outer face
    /// exactly where the slicer drew it and sends the gain into the joint behind
    /// it. What it gains is `(flow - 1)` of its *spacing*, not of its nominal
    /// width: the round caps cost the same either way.
    fn skin_offset(&self) -> f64 {
        let spacing = bead_spacing(self.height(), float(self.pass.skin_width));
        (self.wall_flow() - 1.0) / 2.0 * spacing
    }

    /// What a share of a layer's climb comes to, in mm. Floating point: a share
    /// of half the layer's height.
    fn offset(&self, share: usize, layer: usize) -> f64 {
        let ramp = RAMP;
        float(self.pass.height_at(layer)) / 2.0 * share as f64 / ramp as f64
    }

    /// Where each loop is laid and what its beads are metered at, with what that
    /// costs booked. Floating point: heights and flows are doubles.
    fn meter_loops(&mut self) -> (Vec<Lift>, Vec<f64>) {
        let layer = self.pass.state.layer;
        let plane = float(self.pass.state.layer_z);
        let height = self.height();
        let flow = self.wall_flow();
        let mut lifts = Vec::new();
        let mut factors = Vec::new();
        for index in 0..self.pass.loops.len() {
            let climb = self.pass.climb(index);
            let offset = self.offset(climb.rise, layer);
            // A raised bead starts on top of whatever its column left on the
            // layer below and ends at the nozzle. Where the two offsets match it
            // spans exactly one layer and the arithmetic is skipped rather than
            // trusted: `(h + x) - x` is not `h` in binary.
            let below = self.offset(climb.below, layer.saturating_sub(1));
            let geometry = if !climb.raised || offset == below {
                1.0
            } else {
                (height + offset - below) / height
            };
            let factor = geometry * if climb.flows { flow } else { 1.0 };
            let raised = climb.raised && offset > 0.0;
            if raised {
                self.raise = widened(self.raise, double(height / 2.0));
            }
            // A loop metered exactly as sliced has nothing to book, and summing
            // its stock is the one cost here worth avoiding.
            if raised || factor != 1.0 {
                self.book(index, factor, geometry, raised, climb.flows.then_some(flow));
            }
            lifts.push(Lift {
                offset: double(offset),
                target: double(plane + offset),
            });
            factors.push(factor);
        }
        (lifts, factors)
    }

    /// Books what a loop's flow costs: the stock a raised loop lays, and the
    /// share of any loop's that the multiplier added. Floating point: it sums
    /// lengths of filament.
    fn book(&mut self, index: usize, factor: f64, geometry: f64, raised: bool, flow: Option<f64>) {
        let current = &self.pass.loops[index];
        let stock: f64 = self.pass.buffer[current.body..current.end]
            .iter()
            .filter_map(|buffered| buffered.delta)
            .map(float)
            .filter(|delta| *delta > 0.0)
            .sum();
        if raised {
            self.raised_filament += stock * factor;
        }
        // The layer on the plate is metered as sliced, so reporting its flow
        // would put a 1.0 in every file's range that no wall was printed at.
        if let Some(flow) = flow.filter(|_| stock > 0.0) {
            self.flow = widened(self.flow, double(flow));
        }
        // The multiplier's share is the factor less the geometry it scaled, so a
        // layer that changed height does not book its own flow as the cost of
        // the setting.
        self.multiplier_filament += stock * (factor - geometry);
    }

    /// Where each buffered line should end up, or `None` where it stays exactly
    /// where the slicer put it. Floating point: it offsets loops in the plane.
    fn move_walls(&self) -> Vec<Option<Moved>> {
        let mut moved = vec![None; self.pass.buffer.len()];
        let inward = self.skin_offset();
        if !self.pass.draws_walls_in(double(inward)) {
            return moved;
        }
        for current in 0..self.pass.loops.len() {
            self.move_wall(current, inward, &mut moved);
        }
        moved
    }

    fn move_wall(&self, current: usize, inward: f64, moved: &mut [Option<Moved>]) {
        let Some(course) = self.pass.course(current) else {
            return;
        };
        let place = |at: usize| point(self.pass.buffer[at].at);
        let entry = course.entry.map_or(point(self.pass.state.entry), place);
        let beads = &course.beads;
        // A ring does not return exactly to where it started: slicers stop a
        // bead short of its own seam so the two ends do not pile up. A whole
        // bead width is far more than that and still far under anything an open
        // fragment leaves, so it separates the two.
        let closes = place(beads[beads.len() - 1]);
        if span(closes, entry) >= float(self.pass.skin_width) {
            return;
        }

        // Every vertex the loop was drawn through, the closing one included, so
        // the seam gap survives being offset instead of being pulled shut. A
        // loop that does close exactly would hand the offset the same point
        // twice, which names no direction.
        let mut ring = vec![entry];
        ring.extend(beads.iter().map(|&at| place(at)));
        let seamed = span(ring[ring.len() - 1], ring[0]) > COINCIDENT;
        if !seamed {
            ring.pop();
        }
        // How the loop travels out of each of those vertices. An arc states its
        // centre relative to where it starts, which is the vertex before it.
        let mut edges: Vec<Edge> = beads
            .iter()
            .enumerate()
            .map(|(step, &at)| match self.pass.buffer[at].arc {
                Some(arc) => Edge::Arc {
                    centre: (ring[step].0 + float(arc.i), ring[step].1 + float(arc.j)),
                    clockwise: arc.clockwise,
                },
                None => Edge::Straight,
            })
            .collect();
        if seamed {
            edges.push(Edge::Straight);
        }
        let Some(mut offset) = offset_loop(&ring, &edges, inward) else {
            return;
        };
        if seamed {
            // The closing vertex sits on the same edge as the loop's start and
            // is offset along its own normal, while the start is a corner and
            // moves along two. Carrying the start's move over keeps the gap the
            // slicer chose, exactly.
            let last = offset.len() - 1;
            offset[last] = (
                offset[0].0 + (closes.0 - entry.0),
                offset[0].1 + (closes.1 - entry.1),
            );
            // Which can pull the last bead off the circle it is drawn on, where
            // that bead is an arc.
            if !keeps_its_arcs(&offset, &edges) {
                return;
            }
        }

        for (step, shift) in course.shifts(offset.len()).into_iter().enumerate() {
            // The travel that reaches the loop comes after its beads, and keeps
            // the flow it has.
            let edge = edges.get(step).filter(|_| step < beads.len());
            let next = shift.corner;
            moved[shift.line] = Some(match edge {
                Some(&edge) => {
                    let was = edge_length(ring[step], ring[next], edge);
                    let now = edge_length(offset[step], offset[next], edge);
                    Moved {
                        to: offset[next],
                        // An arc names its centre from wherever it starts, so
                        // moving its start moves the words that point at the
                        // centre too.
                        centre: match edge {
                            Edge::Arc { centre, .. } => {
                                Some((centre.0 - offset[step].0, centre.1 - offset[step].1))
                            }
                            Edge::Straight => None,
                        },
                        ratio: if was > 0.0 { now / was } else { 1.0 },
                    }
                }
                None => Moved {
                    to: offset[next],
                    centre: None,
                    ratio: 1.0,
                },
            });
        }
    }

    /// Writes a line taken elsewhere, and says whether it could.
    fn relocate(
        &self,
        text: &mut Vec<u8>,
        line: &Line<'_>,
        moved: &Moved,
        e: Option<f64>,
        z: Option<f64>,
    ) -> bool {
        let (x, y) = (digits(moved.to.0, 3), digits(moved.to.1, 3));
        let centre = moved.centre.map(|(i, j)| (digits(i, 3), digits(j, 3)));
        let e = e.map(|value| digits(value, 5));
        let z = z.map(|value| digits(value, 3));
        line.write_moved(
            text,
            &Relocation {
                x: &x,
                y: &y,
                centre: centre.as_ref().map(|(i, j)| (&i[..], &j[..])),
                e: e.as_deref(),
                z: z.as_deref(),
            },
        )
    }

    /// Replays a buffered move with its height set to `z`, in place of the
    /// `G1 Z` that would otherwise have been inserted after it. A move that is
    /// also being taken sideways carries both at once.
    fn ride(&mut self, index: usize, z: f64, raised: bool, moved: Option<Moved>) -> io::Result<()> {
        let mut text = Vec::new();
        let line = Line::parse(&self.pass.texts[index]);
        let written = moved
            .is_some_and(|moved| self.relocate(&mut text, &line, &moved, None, Some(z)));
        if !written {
            line.write_z(&mut text, &digits(z, 3));
        }
        write_stamp(&mut text, raised);
        self.out.write_all(&text)
    }

    /// Replays a buffered line, its flow scaled by `factor` and, where the
    /// visible wall is being taken sideways, its `X` and `Y` moved. Floating
    /// point: it scales the filament the line asks for.
    fn replay(&mut self, index: usize, factor: f64, moved: Option<Moved>) -> io::Result<()> {
        let buffered = self.pass.buffer[index];
        let factor = factor * moved.map_or(1.0, |moved| moved.ratio);
        let delta = buffered.delta.map_or(0.0, float);
        if delta > 0.0 {
            self.filament += delta * factor;
        }
        let scaled = delta * factor;
        let sum = float(self.pass.state.extruder.output) + scaled;
        let emission = self.pass.meter(index, double(scaled), double(sum));
        let value = match emission {
            Emission::Metered(value) => Some(value),
            Emission::Copied => buffered.delta.and(buffered.e),
        };

        let mut text = Vec::new();
        let raw = &self.pass.texts[index];
        let written = moved.is_some_and(|moved| {
            self.relocate(&mut text, &Line::parse(raw), &moved, value.map(float), None)
        });
        if !written {
            match emission {
                Emission::Metered(value) => {
                    write_e(&mut text, raw, buffered.e_span, &digits(float(value), 5));
                }
                Emission::Copied => text.extend_from_slice(raw.as_bytes()),
            }
        }
        text.push(b'\n');
        self.out.write_all(&text)
    }

    fn move_z(&mut self, z: f64, raised: bool, resume: Option<Double>) -> io::Result<()> {
        // Plain `Display`, not `{:.0}`: both rates were read off the file, and
        // rounding them to whole mm/min hands the print back a speed it never
        // asked for — `F0` for anything under half a unit.
        let shown = |rate: Double| format!("{}", float(rate)).into_bytes();
        let rate = shown(self.pass.z_feedrate);
        let previous = resume.map(shown);
        let mut text = Vec::new();
        write_z_move(&mut text, &digits(z, 3), &rate, raised, previous.as_deref());
        self.out.write_all(&text)
    }

    fn push(&mut self, line: &str) -> io::Result<()> {
        self.out.write_all(line.as_bytes())?;
        self.out.write_all(b"\n")
    }
}

/// Flow to meter a wall at, for a layer of `height` printed at `width`, where a
/// layer as thick as the nozzle would take `extra` over.
fn automatic_flow(height: f64, width: Option<f64>, extra: f64) -> f64 {
    float(derived(&wall_geometry(height, width, extra)))
}

/// How a rewrite is to be done, in figures a test can write down.
#[derive(Clone, Copy, Debug)]
struct Config {
    layer_height: Option<f64>,
    wall_flow: Option<f64>,
    extra_flow: f64,
    wall_width: Option<f64>,
    external_perimeters_first: bool,
}

impl Default for Config {
    fn default() -> Self {
        Self {
            layer_height: None,
            wall_flow: None,
            extra_flow: DEFAULT_EXTRA_FLOW,
            wall_width: None,
            external_perimeters_first: false,
        }
    }
}

struct Outcome {
    gcode: String,
    stats: Stats,
}

/// Rewrites G-code held in memory.
fn apply(source: &str, config: &Config) -> Outcome {
    let settings = Settings {
        layer_height: config.layer_height.map(double),
        wall_flow: config.wall_flow.map(double),
        extra_flow: double(config.extra_flow),
        wall_width: config.wall_width.map(double),
        external_perimeters_first: config.external_perimeters_first,
    };
    let survey = read_survey(source.as_bytes()).expect("reading a slice cannot fail");
    let mut out = Vec::new();
    let stats =
        stream(source.as_bytes(), &mut out, &settings, &survey).expect("writing to a Vec");
    Outcome {
        gcode: String::from_utf8(out).expect("rewritten G-code is UTF-8"),
        stats,
    }
}

/// The value of a word of a line.
fn word(line: &Line<'_>, word: Option<Word>) -> Option<f64> {
    word.map(|_| worth(line, word))
}

fn e_of(line: &str) -> f64 {
    let parsed = Line::parse(line);
    word(&parsed, parsed.e).expect("an E")
}

fn y_of(line: &str) -> f64 {
    let parsed = Line::parse(line);
    word(&parsed, parsed.y).expect("a Y")
}

fn range((low, high): (Double, Double)) -> (f64, f64) {
    (float(low), float(high))
}

fn layer(z: f64) -> String {
    format!(";LAYER_CHANGE\nG1 Z{z:.2} F600\n")
}

fn relative(body: &str) -> String {
    format!("; layer_height = 0.2\nM83\n{body}")
}

/// A file whose middle layer carries `body`, so neither the layers a
/// column climbs over nor the one that caps it applies.
///
/// The same wall runs the whole height of the file, as it does in a real
/// one. Without a copy above, the body would be the last layer holding a
/// wall, which caps it; without copies below, it would be a column that
/// begins out of nowhere, which starts the climb instead. Either way the
/// body measures something other than the steady state. The copies are
/// stripped of their tags so they stay out of [`loop_states`], which does
/// mean a body's loops are counted five times in `Stats::loops`.
fn middle_layer(body: &str) -> String {
    let same = untagged(body);
    relative(&format!(
        "{}{same}{}{same}{}{same}{}{body}{}{same}",
        layer(0.2),
        layer(0.4),
        layer(0.6),
        layer(0.8),
        layer(1.0),
    ))
}

/// `body` with its trailing comments removed, so the same geometry can be
/// emitted twice without the tags being counted twice. Marker lines, which
/// are nothing but a comment, are kept whole.
fn untagged(body: &str) -> String {
    let mut text = String::new();
    for line in body.lines() {
        let kept = match line.trim_start().starts_with(';') {
            true => line,
            false => line.split(';').next().unwrap_or(line).trim_end(),
        };
        text.push_str(kept);
        text.push('\n');
    }
    text
}

/// One wall's internal perimeter loops, the way a slicer emits them:
/// concentric squares printed innermost first, since every mainstream
/// slicer lays the external perimeter down last. Each loop is an extrusion
/// width out from the one before and reached by its own travel, and each
/// one's first extrusion is labelled `<tag><number>` in print order, so
/// the highest number is the loop against the visible wall.
fn wall(loops: usize, tag: &str) -> String {
    wall_of(loops, tag, 0.0, 10.0, 0.5)
}

fn wall_of(loops: usize, tag: &str, origin: f64, size: f64, flow: f64) -> String {
    let mut text = String::new();
    for index in 0..loops {
        let step = 0.45 * (loops - 1 - index) as f64;
        let near = origin + step;
        let far = origin + size - step;
        text.push_str(&format!("G1 X{near:.2} Y{near:.2} F9000\n"));
        text.push_str(&format!(
            "G1 X{far:.2} Y{near:.2} E{flow} ; {tag}{}\n",
            index + 1
        ));
        for (x, y) in [(far, far), (near, far), (near, near)] {
            text.push_str(&format!("G1 X{x:.2} Y{y:.2} E{flow}\n"));
        }
    }
    text
}

fn run(source: &str, config: &Config) -> String {
    apply(source, config).gcode
}

/// The shipped settings with the flow left alone, for a test that measures
/// what the geometry asks for rather than what the multiplier adds to it.
fn plain() -> Config {
    Config {
        wall_flow: Some(1.0),
        ..Config::default()
    }
}

/// A file that states the width its visible wall was metered at, which is
/// what turns a multiplier into a distance to draw that wall in by.
///
/// 0.4 mm at a multiplier of 1.3 gives an offset of exactly 0.06, so the
/// moved coordinates are readable rather than rounded.
fn with_skin_width(body: &str) -> String {
    format!("; external_perimeter_extrusion_width = 0.4\n{body}")
}

fn drawn_in() -> Config {
    Config {
        wall_flow: Some(1.3),
        ..Config::default()
    }
}

/// A 10 mm square of visible wall, printed anticlockwise as a slicer emits
/// an island's boundary.
fn skin() -> String {
    format!(
        ";TYPE:External perimeter\n{}",
        wall_of(1, "skin", 0.0, 10.0, 1.0)
    )
}

/// The same square, stopped `gap` mm short of its own seam, which is what
/// a slicer actually emits so the two ends of a ring do not pile up.
fn seamed_skin(gap: f64) -> String {
    format!(
        ";TYPE:External perimeter\n\
         G1 X0.00 Y0.00 F9000\n\
         G1 X10.00 Y0.00 E1 ; skin1\n\
         G1 X10.00 Y10.00 E1\n\
         G1 X0.00 Y10.00 E1\n\
         G1 X0.00 Y{gap:.3} E1\n"
    )
}

/// Each tagged loop in the output, paired with whether the nozzle was
/// raised when it printed.
fn loop_states(out: &str) -> Vec<(String, bool)> {
    let mut raised = false;
    let mut states = Vec::new();
    for line in out.lines() {
        let Some((body, tag)) = line.rsplit_once("; ") else {
            continue;
        };
        if let Some(note) = tag.strip_prefix(brick_stamp()) {
            match note {
                "raised" => raised = true,
                "reset" => raised = false,
                _ => {}
            }
        } else if !body.trim().is_empty() {
            states.push((tag.to_owned(), raised));
        }
    }
    states
}

#[test]
fn raises_every_other_internal_loop() {
    let source = middle_layer(&format!(";TYPE:Perimeter\n{}", wall(2, "loop")));
    let out = run(&source, &Config::default());
    assert!(
        out.contains("G1 X0.00 Y0.00 F9000 Z0.900 ; bricklayers brick raised"),
        "{out}"
    );
    assert!(
        out.contains("G1 Z0.800 F600 ; bricklayers brick reset"),
        "{out}"
    );
}

#[test]
fn a_height_change_rides_the_travel_that_reaches_the_loop() {
    // A `G1 Z` of its own names no other axis, so the planner stops the
    // toolhead to run it and the nozzle sits primed over the loop's start
    // point while the axis crawls. Every loop starts at the seam, so an
    // aligned seam stacks the ooze from all of them into one line.
    let source = middle_layer(&format!(";TYPE:Perimeter\n{}", wall(3, "loop")));
    let out = run(&source, &Config::default());
    let halts = |note: &str| {
        out.lines()
            .filter(|line| line.starts_with("G1 Z") && line.ends_with(note))
            .count()
    };
    let ridden = out
        .lines()
        .filter(|line| line.contains(" X") && line.contains(brick_stamp()))
        .count();
    assert!(ridden > 0, "no height change rode a travel:\n{out}");
    assert_eq!(
        halts("raised"),
        0,
        "every raise has the travel that reaches its loop to ride:\n{out}"
    );
    // Riding a travel must not move the bead: every loop is still laid at
    // the height it was laid at before.
    assert!(
        out.contains("G1 X0.00 Y0.00 F9000 Z0.900 ; bricklayers brick raised"),
        "{out}"
    );
    assert!(
        !out.contains("G1 Z0.900"),
        "the raise still stopped the toolhead:\n{out}"
    );
}

#[test]
fn a_height_change_never_rides_a_z_hop_down() {
    // Pulling a hop down to printing height would drag the nozzle through
    // exactly what the slicer lifted it to clear. The restore rides the
    // first extrusion here, so the hop is the last move of the lead and is
    // the one a careless rewrite would land on.
    let source = middle_layer(
        ";TYPE:Perimeter\n\
         G1 X0.45 Y0.45 F9000\n\
         G1 X9.55 Y0.45 E0.5\n\
         G1 X9.55 Y9.55 E0.5\n\
         G1 X0.45 Y9.55 E0.5\n\
         G1 X0.45 Y0.45 E0.5\n\
         G1 X0 Y0 Z1.4 F9000\n\
         G1 X10 Y0 Z0.8 E0.5\n\
         G1 X10 Y10 E0.5\n\
         G1 X0 Y10 E0.5\n\
         G1 X0 Y0 E0.5\n",
    );
    let out = run(&source, &Config::default());
    assert!(
        out.contains("G1 X0 Y0 Z1.4 F9000\n"),
        "the hop was flattened onto the layer:\n{out}"
    );
}

#[test]
fn inserted_z_moves_carry_a_feedrate_and_hand_the_print_speed_back() {
    // A bare `G1 Z` inherits whatever `F` came last, which after a travel
    // slews the Z axis at travel speed. `F` is modal, so the print speed
    // has to be restored before the loop resumes. The travel here already
    // carries a comment, which is where the stamp would have to go, so the
    // height cannot ride it and the fallback is what runs.
    let source = middle_layer(
        ";TYPE:Perimeter\n\
         G1 X0.45 Y0.45 F9000\n\
         G1 X9.55 Y0.45 E0.5\n\
         G1 X9.55 Y9.55 E0.5\n\
         G1 X0.45 Y9.55 E0.5\n\
         G1 X0.45 Y0.45 E0.5\n\
         G1 X0 Y0 F9000 ; travel\n\
         G1 F1800\n\
         G1 X10 Y0 E0.5\n\
         G1 X10 Y10 E0.5\n\
         G1 X0 Y10 E0.5\n\
         G1 X0 Y0 E0.5\n",
    );
    let out = run(&source, &Config::default());
    assert!(
        out.contains("G1 Z0.900 F600 ; bricklayers brick raised"),
        "{out}"
    );
    assert!(out.contains("G1 F1800 ; bricklayers brick resume"), "{out}");
}

#[test]
fn an_inserted_feedrate_hands_back_the_rate_the_file_asked_for() {
    // Rounding the restore to whole mm/min hands the print a speed it
    // never asked for, and anything under half a unit comes back as `F0`.
    let source = middle_layer(
        ";TYPE:Perimeter\n\
         G1 X0.45 Y0.45 F9000\n\
         G1 X9.55 Y0.45 E0.5\n\
         G1 X9.55 Y9.55 E0.5\n\
         G1 X0.45 Y9.55 E0.5\n\
         G1 X0.45 Y0.45 E0.5\n\
         G1 X0 Y0 F9000 ; travel\n\
         G1 F1799.5\n\
         G1 X10 Y0 E0.5\n\
         G1 X10 Y10 E0.5\n\
         G1 X0 Y10 E0.5\n\
         G1 X0 Y0 E0.5\n",
    );
    let out = run(&source, &Config::default());
    assert!(
        out.contains("G1 F1799.5 ; bricklayers brick resume"),
        "the restored feedrate was rounded:\n{out}"
    );
}

/// A slicer drops progress, fan, acceleration, tool and origin codes
/// between the layer's `G1 Z` and the wall that follows it. Ending the
/// held tail on one of those wrote the travel out before the raise could
/// ride it, so the raise fell back to a `G1 Z` of its own — on the loop's
/// start point, primed, which is the seam. Measured on a stock OrcaSlicer
/// file it cost 2 of 132 raises, and 132 of 132 once an `M73` followed
/// every layer's `G1 Z`.
#[test]
fn a_height_change_still_rides_a_travel_across_an_interrupting_command() {
    for interruption in ["M73 P1 R1", "M106 S255", "M204 S500", "T0", "G92 E0"] {
        // The loop's travel has to sit before the interruption, as it does
        // in a real file: the slicer reaches the wall, then declares the
        // region, and the first loop has no move of its own left.
        let loops = wall(3, "loop");
        let (travel, rest) = loops.split_once('\n').expect("a wall opens with a travel");
        let body = format!("{travel}\n{interruption}\n;TYPE:Perimeter\n{rest}");
        let same = untagged(&body);
        let source = relative(&format!(
            "{}{same}{}{same}{}{same}{}{body}{}{same}",
            layer(0.2),
            layer(0.4),
            layer(0.6),
            layer(0.8),
            layer(1.0),
        ));

        let out = run(&source, &Config::default());
        let halts = out
            .lines()
            .filter(|line| line.starts_with("G1 Z") && line.ends_with("raised"))
            .count();
        assert_eq!(halts, 0, "{interruption} cost a raise its carrier:\n{out}");
        assert!(
            out.contains("Z0.900 ; bricklayers brick raised"),
            "{interruption}: nothing was raised at all:\n{out}"
        );
        assert!(
            out.contains(&format!("\n{interruption}\n")),
            "{interruption} was dropped:\n{out}"
        );
    }
}

/// The same, in absolute mode, where a `G92` also has to keep the stream
/// honest: the origin is read when the line is parsed but only reaches the
/// output when the buffered tail is written, so the two halves move apart.
#[test]
fn a_g92_between_the_layer_and_the_wall_keeps_the_carrier_and_the_origin() {
    let loops = wall_of(3, "loop", 0.0, 10.0, 1.0);
    let (travel, rest) = loops.split_once('\n').expect("a wall opens with a travel");
    let body = format!("{travel}\nG92 E0\n;TYPE:Perimeter\n{rest}");
    let same = untagged(&body);
    let source = format!(
        "; layer_height = 0.2\nM82\n{}{same}{}{same}{}{same}{}{body}{}{same}",
        layer(0.2),
        layer(0.4),
        layer(0.6),
        layer(0.8),
        layer(1.0),
    );

    let out = run(&source, &Config::default());
    let halts = out
        .lines()
        .filter(|line| line.starts_with("G1 Z") && line.ends_with("raised"))
        .count();
    assert_eq!(halts, 0, "the reset cost the raise its carrier:\n{out}");

    // Every absolute value after the last reset is measured from the new
    // zero, so none of them may jump or run backwards.
    let after = out.rsplit_once("\nG92 E0\n").expect("the reset is kept").1;
    let mut position = 0.0;
    for line in after.lines() {
        let parsed = Line::parse(line);
        let Some(e) = word(&parsed, parsed.e).filter(|_| parsed.draws()) else {
            continue;
        };
        assert!(
            e >= position && e - position <= 1.5,
            "{line} asks for {} mm in one move:\n{out}",
            e - position
        );
        position = e;
    }
}

#[test]
fn inserted_z_moves_fall_back_when_the_file_never_moves_z_alone() {
    let source = relative(&format!(
        ";LAYER_CHANGE\n;TYPE:Perimeter\nG1 X0 Y0 Z0.2 F9000\n{}\
         ;LAYER_CHANGE\n;TYPE:Perimeter\nG1 X0 Y0 Z0.4 F9000\n{}\
         ;LAYER_CHANGE\n;TYPE:Perimeter\nG1 X0 Y0 Z0.6 F9000\n{}\
         ;LAYER_CHANGE\n;TYPE:Perimeter\nG1 X0 Y0 Z0.8 F9000\n{}\
         ;LAYER_CHANGE\n;TYPE:Solid infill\nG1 X0 Y0 Z1.0 F9000\nG1 X10 Y0 E0.5\n",
        wall(2, "loop"),
        wall(2, "second"),
        wall(2, "third"),
        wall(2, "above")
    ));
    let out = run(&source, &Config::default());
    // Nothing here moves Z on its own, so the closing reset — which has no
    // travel left to ride — falls back to the built-in feedrate.
    assert!(
        out.contains("G1 Z0.600 F720 ; bricklayers brick reset"),
        "{out}"
    );
}

#[test]
fn a_wall_that_starts_partway_up_climbs_from_where_it_starts() {
    // The mirror of a wall that ends: a column beginning on solid infill —
    // the underside of a shelf, the roof of a bridged hole — has no seam
    // under its first bead. Raising that bead by the full offset asks it
    // to span a layer and a half of gap the slicer metered for one, which
    // leaves a void. It has to climb from where it begins, exactly as a
    // column standing on the bed does.
    let body = format!(";TYPE:Perimeter\n{}", wall(2, "loop"));
    let mut source = String::new();
    // Two layers of solid infill, so the wall above them is supported
    // material but stands on no column of its own.
    for z in [0.2, 0.4] {
        source.push_str(&layer(z));
        source.push_str(";TYPE:Solid infill\nG1 X0 Y0 F9000\nG1 X10 Y0 E0.5\n");
    }
    for z in [0.6, 0.8, 1.0, 1.2, 1.4] {
        source.push_str(&layer(z));
        source.push_str(&untagged(&body));
    }
    let out = run(&relative(&source), &plain());
    let raises: Vec<&str> = out
        .lines()
        .filter(|line| line.ends_with("raised"))
        .map(|line| &line[line.find(" Z").expect("a height") + 2..line.len() - 27])
        .collect();
    // Nothing on the layer the column starts at, then a quarter and a half
    // of the layer as it climbs, then the offset it keeps.
    assert_eq!(raises, ["0.850", "1.100", "1.300"], "{out}");
    // The climbing beads are metered for the ground they gained; the one
    // above them spans exactly its own layer.
    assert!(out.contains("E0.62500"), "a climbing bead: {out}");
    assert!(
        out.contains("G1 X10.00 Y0.00 E0.5"),
        "the bead that starts the column is left as sliced: {out}"
    );
}

#[test]
fn a_wall_that_ends_partway_up_is_capped_while_its_neighbour_carries_on() {
    // A shoulder: one column of wall runs on to the top of the part and
    // another stops here, closed by a surface printed at the next plane.
    // That surface is metered for a whole layer, so a bead left raised
    // under it fills half the gap with twice the material. Measured on the
    // real slice this came from, 293.8 mm of a 399.0 mm top surface sat on
    // a bead 0.1 mm proud.
    let on = wall_of(2, "on", 0.0, 10.0, 0.5);
    let ends = wall_of(2, "end", 20.0, 10.0, 0.5);
    let both = untagged(&format!(";TYPE:Perimeter\n{on}{ends}"));
    let mut source = String::new();
    // Both columns run up from the bed, or the layer under test would be
    // where they begin rather than where one of them ends.
    for z in [0.2, 0.4, 0.6, 0.8] {
        source.push_str(&layer(z));
        source.push_str(&both);
    }
    source.push_str(&layer(1.0));
    source.push_str(&format!(";TYPE:Perimeter\n{on}{ends}"));
    source.push_str(&layer(1.2));
    source.push_str(&format!(";TYPE:Perimeter\n{}", untagged(&on)));
    source.push_str(";TYPE:Solid infill\nG1 X20 Y20 F9000\nG1 X30 Y20 E0.5\nG1 X30 Y30 E0.5\n");
    let source = relative(&source);
    let out = run(&source, &plain());
    assert_eq!(
        loop_states(&out),
        vec![
            ("on1".to_owned(), false),
            ("on2".to_owned(), true),
            ("end1".to_owned(), false),
            ("end2".to_owned(), false),
        ],
        "only the wall that stops is capped: {out}"
    );
    assert!(
        out.contains("E0.25000 ; end2"),
        "and it gives back the half layer its column took: {out}"
    );
}

#[test]
fn the_top_layer_caps_the_wall_flat() {
    // Raising here would stand a bead half a layer proud of the top
    // surface beside it, and meter it for half a gap that is a whole one.
    let body = format!(";TYPE:Perimeter\n{}", wall(2, "loop"));
    let same = untagged(&body);
    let source = relative(&format!(
        "{}{same}{}{same}{}{same}{}{body}{}",
        layer(0.2),
        layer(0.4),
        layer(0.6),
        layer(0.8),
        ";TYPE:Top solid infill\nG1 X40 Y0 E0.5\n"
    ));
    let out = run(&source, &plain());
    assert_eq!(
        loop_states(&out),
        vec![("loop1".to_owned(), false), ("loop2".to_owned(), false)],
        "the top layer must stay on the plane: {out}"
    );
    assert!(
        out.contains("E0.25000 ; loop2"),
        "and still meter the half gap the raised loop below left: {out}"
    );
}

#[test]
fn the_layer_that_tops_a_wall_caps_it_though_the_file_goes_on() {
    // What closes a part is solid infill laid over its walls, so the last
    // wall is a layer or more below the last layer. Measured on six real
    // slices: one to five layers below, so testing the layer count capped
    // nothing at all and left every part's topmost wall standing proud.
    let body = format!(";TYPE:Perimeter\n{}", wall(2, "loop"));
    let same = untagged(&body);
    let source = relative(&format!(
        "{}{same}{}{same}{}{same}{}{body}{}{}",
        layer(0.2),
        layer(0.4),
        layer(0.6),
        layer(0.8),
        layer(1.0),
        ";TYPE:Top solid infill\nG1 X40 Y0 E0.5\n"
    ));
    let out = run(&source, &plain());
    assert_eq!(
        loop_states(&out),
        vec![("loop1".to_owned(), false), ("loop2".to_owned(), false)],
        "the wall's top layer must stay on the plane: {out}"
    );
    assert!(
        out.contains("E0.25000 ; loop2"),
        "and still meter the half gap the raised loop below left: {out}"
    );
}

#[test]
fn tracks_a_layer_z_that_arrives_inside_a_perimeter_region() {
    // Klipper flavour, and Orca with Z-hop off, fold the layer's Z into the
    // travel that reaches the first loop rather than emitting it alone.
    let source = relative(&format!(
        ";LAYER_CHANGE\n;TYPE:Perimeter\nG1 X0 Y0 Z0.2 F9000\n{}\
         ;LAYER_CHANGE\n;TYPE:Perimeter\nG1 X0 Y0 Z0.4 F9000\n{}\
         ;LAYER_CHANGE\n;TYPE:Perimeter\nG1 X0 Y0 Z0.6 F9000\n{}\
         ;LAYER_CHANGE\n;TYPE:Perimeter\nG1 X0 Y0 Z0.8 F9000\n{}\
         ;LAYER_CHANGE\n;TYPE:Solid infill\nG1 X0 Y0 Z1.0 F9000\nG1 X10 Y0 E0.5\n",
        wall(2, "first"),
        wall(2, "second"),
        wall(2, "third"),
        wall(2, "above"),
    ));
    let out = run(&source, &Config::default());
    assert!(
        out.contains("G1 X0.00 Y0.00 F9000 Z0.450 ; bricklayers brick raised"),
        "{out}"
    );
    assert!(
        out.contains("G1 X0.00 Y0.00 F9000 Z0.700 ; bricklayers brick raised"),
        "{out}"
    );
    assert!(
        !out.contains("G1 Z0.000"),
        "drove the nozzle into the bed: {out}"
    );
    assert!(
        !out.contains("G1 Z0.100"),
        "shifted off a stale layer Z: {out}"
    );
}

#[test]
fn a_loop_that_does_not_touch_the_last_one_starts_a_new_contour() {
    // One region holding a three-loop wall and then a two-loop hole well
    // away from it. The wall's loops run beside each other and keep the
    // alternation going; the hole touches nothing, so it opens raised
    // despite following an odd loop count.
    let source = middle_layer(&format!(
        ";TYPE:Perimeter\n{}{}",
        wall_of(3, "wall", 0.0, 10.0, 0.5),
        wall_of(2, "hole", 50.0, 4.0, 0.5),
    ));
    let out = run(&source, &Config::default());
    assert_eq!(
        loop_states(&out),
        vec![
            ("wall1".to_owned(), true),
            ("wall2".to_owned(), false),
            ("wall3".to_owned(), true),
            ("hole1".to_owned(), false),
            ("hole2".to_owned(), true),
        ],
        "{out}"
    );
}

#[test]
fn an_open_wall_alternates_though_its_loops_do_not_nest() {
    // Most of a wall is not a closed ring. Where a slicer follows a curved
    // surface the loops are arcs, each one offset sideways from the last
    // and often longer than it, so neither encloses the other. They are
    // still the same wall, and grouping them by what they enclose leaves
    // almost every loop of a real print on its own.
    let mut arcs = String::new();
    for index in 0..4 {
        let x = 0.45 * index as f64;
        let reach = 4.0 + index as f64;
        arcs.push_str(&format!("G1 X{x:.2} Y0 F9000\n"));
        arcs.push_str(&format!("G1 X{x:.2} Y{reach:.2} E0.5 ; arc{}\n", index + 1));
    }
    let source = middle_layer(&format!(";TYPE:Perimeter\n{arcs}"));
    let outcome = apply(&source, &Config::default());
    // Four per layer, on each of the five layers the fixture repeats the
    // wall over so that this one stands on a column and carries one.
    assert_eq!(outcome.stats.loops, 20);
    assert_eq!(
        outcome.stats.raised, 6,
        "one wall, so every other arc: {}",
        outcome.gcode
    );
}

#[test]
fn a_retraction_between_a_wall_s_own_loops_does_not_split_it() {
    // Slicers retract and hop between neighbouring loops of one wall
    // whenever the seams are far apart, which must not read as a new
    // contour: the two loops still have to alternate.
    let source = middle_layer(
        ";TYPE:Perimeter\n\
         G1 X0.45 Y0.45 F9000\n\
         G1 X9.55 Y0.45 E0.5 ; inner\n\
         G1 X9.55 Y9.55 E0.5\n\
         G1 X0.45 Y9.55 E0.5\n\
         G1 X0.45 Y0.45 E0.5\n\
         G1 E-0.8 F2100\n\
         G1 X20 Y20 F9000\n\
         G1 X0 Y0 F9000\n\
         G1 E0.8 F2100\n\
         G1 X10 Y0 E0.5 ; outer\n\
         G1 X10 Y10 E0.5\n\
         G1 X0 Y10 E0.5\n\
         G1 X0 Y0 E0.5\n",
    );
    let config = Config {
        wall_flow: Some(2.0),
        ..Config::default()
    };
    let out = run(&source, &config);
    assert_eq!(
        loop_states(&out),
        vec![("inner".to_owned(), false), ("outer".to_owned(), true)],
        "the retraction must not split the wall: {out}"
    );
}

#[test]
fn a_layer_change_ends_the_region_it_interrupts() {
    // OrcaSlicer opens the next layer's wall with a stray segment before it
    // re-declares the region. Carrying the old region across the layer
    // change would buffer that segment as a perimeter loop of its own, at
    // the new layer's Z.
    let source = relative(&format!(
        ";LAYER_CHANGE\nG1 Z0.20 F600\n;TYPE:Perimeter\n{}\
         ;LAYER_CHANGE\nG1 Z0.40 F600\nG1 X20 Y20 E0.01 ; stray\n\
         ;TYPE:Perimeter\n{}",
        wall(2, "first"),
        wall(2, "second"),
    ));
    let outcome = apply(&source, &Config::default());
    assert!(
        outcome.gcode.contains("G1 X20 Y20 E0.01 ; stray\n"),
        "{}",
        outcome.gcode
    );
    assert_eq!(outcome.stats.loops, 4, "the stray segment is not a loop");
}

#[test]
fn a_loop_that_opens_with_an_arc_is_raised_whole() {
    // Arc fitting replaces a run of short segments with one G2/G3, often at
    // the very start of a loop. Treating that as part of the travel would
    // print it before the nozzle rises, at the height of the loop below.
    let source = middle_layer(
        ";TYPE:Perimeter\n\
         G1 X0.45 Y0.45 F9000\n\
         G1 X9.55 Y0.45 E0.5\n\
         G1 X9.55 Y9.55 E0.5\n\
         G1 X0.45 Y9.55 E0.5\n\
         G1 X0.45 Y0.45 E0.5\n\
         G1 X0 Y0 F9000\n\
         G2 X10 Y0 I5 J1 E0.5 ; outer opens\n\
         G1 X10 Y10 E0.5\n\
         G1 X0 Y10 E0.5\n\
         G1 X0 Y0 E0.5\n",
    );
    let out = run(&source, &Config::default());
    let raise = out
        .find("Z0.900 ; bricklayers brick raised")
        .expect("the wall is raised");
    let arc = out.find("; outer opens").expect("arc kept");
    assert!(
        raise < arc,
        "the arc opens the loop, so it rises with it:\n{out}"
    );
}

#[test]
fn a_contour_holding_one_loop_is_raised_against_the_wall_that_shows() {
    // A lone loop has no internal neighbour, but it was inset from an
    // external perimeter, so the visible wall is what it staggers against.
    let source = middle_layer(&format!(";TYPE:Perimeter\n{}", wall(1, "lone")));
    let outcome = apply(&source, &Config::default());
    assert_eq!(
        loop_states(&outcome.gcode),
        vec![("lone1".to_owned(), true)]
    );
    // The other four are the fixture's own wall on the layers around it.
    assert_eq!(outcome.stats.loops, 5);
    // The bed layer stays flat and the top one is capped, so the three in
    // between are raised.
    assert_eq!(outcome.stats.raised, 3);
}

#[test]
fn a_solid_wall_three_beads_thick_bricks_its_single_inner_bead() {
    // The case a thin rib produces: the visible wall wraps both faces and
    // one internal loop runs down the middle. Raising it keys the rib to
    // the wall on either side, and the wall itself must stay on the plane.
    let source = middle_layer(
        ";TYPE:Perimeter\n\
         G1 X0.70 Y0.68 F9000\n\
         G1 X39.30 Y0.68 E1.0 ; rib1\n\
         ;TYPE:External perimeter\n\
         G1 X0.22 Y0.22 F9000\n\
         G1 X39.78 Y0.22 E1.0 ; skin1\n\
         G1 X39.78 Y1.13 E0.1\n\
         G1 X0.22 Y1.13 E1.0\n\
         G1 X0.22 Y0.22 E0.1\n",
    );
    let outcome = apply(&source, &Config::default());
    assert_eq!(
        loop_states(&outcome.gcode),
        vec![("rib1".to_owned(), true), ("skin1".to_owned(), false)],
        "{}",
        outcome.gcode
    );
    assert_eq!(outcome.stats.raised, 3);
}

#[test]
fn a_lone_hole_is_bricked_beside_a_wall_in_the_same_region() {
    // Numbering restarts per contour, so a two-loop wall and the
    // single-loop hole beside it are each anchored on their own
    // external-adjacent end.
    let source = middle_layer(&format!(
        ";TYPE:Perimeter\n{}{}",
        wall_of(2, "wall", 0.0, 10.0, 0.5),
        wall_of(1, "hole", 50.0, 4.0, 0.5),
    ));
    let config = Config {
        wall_flow: Some(2.0),
        ..Config::default()
    };
    let outcome = apply(&source, &config);
    assert!(
        outcome.gcode.contains("E1.00000 ; wall2"),
        "{}",
        outcome.gcode
    );
    assert!(
        outcome.gcode.contains("E1.00000 ; hole1"),
        "{}",
        outcome.gcode
    );
    assert_eq!(outcome.stats.loops, 15);
    assert_eq!(outcome.stats.raised, 6);
}

#[test]
fn restores_z_before_leaving_the_perimeter_region() {
    let source = middle_layer(&format!(
        ";TYPE:Perimeter\n{};TYPE:Solid infill\nG1 X40 Y0 E0.5\n",
        wall(2, "loop")
    ));
    let out = run(&source, &Config::default());
    // The fixture repeats the wall on every layer, so anchor on the
    // tagged one rather than on the file's first solid infill.
    let tail = &out[out.find("; loop2").expect("tagged loop kept")..];
    let reset = tail.find("bricklayers brick reset").expect("reset emitted");
    let infill = tail.find(";TYPE:Solid infill").expect("marker kept");
    assert!(reset < infill, "Z must drop before infill starts:\n{out}");
}

/// The visible wall is never raised, and a file that states no width for
/// it has nothing to move it by, so it comes through exactly as sliced.
#[test]
fn external_perimeters_are_never_raised() {
    let source = middle_layer(";TYPE:External perimeter\nG1 X10 Y0 E0.5\nG1 X20 Y0 E0.5\n");
    assert!(!run(&source, &Config::default()).contains("bricklayers"));
}

/// The multiplier is a flow for the hidden walls, not compensation owed to
/// the raise, so the loop left on the plane is scaled beside the one that
/// was raised.
#[test]
fn every_internal_wall_is_metered_at_the_multiplier() {
    let source = middle_layer(&format!(
        ";TYPE:Perimeter\n{}",
        wall_of(2, "loop", 0.0, 10.0, 1.0)
    ));
    let config = Config {
        wall_flow: Some(1.5),
        ..Config::default()
    };
    let out = run(&source, &config);
    assert!(out.contains("E1.50000 ; loop2"), "raised loop:\n{out}");
    assert!(out.contains("E1.50000 ; loop1"), "flat loop:\n{out}");
    assert!(!out.contains("E1 ; loop"), "nothing left as sliced:\n{out}");
}

/// Everything the eye lands on that is not a wall is left alone: the solid
/// surfaces that close the part top and bottom, and the infill between
/// them, are not perimeters and are never rescaled.
#[test]
fn the_surfaces_that_show_are_left_as_sliced() {
    let source = middle_layer(&format!(
        ";TYPE:Top solid infill\nG1 X0 Y-2 F9000\nG1 X10 Y-2 E1.0 ; ceiling\n\
         ;TYPE:Internal infill\nG1 X0 Y-3 F9000\nG1 X10 Y-3 E1.0 ; fill\n\
         ;TYPE:Perimeter\n{}",
        wall_of(2, "loop", 0.0, 10.0, 1.0)
    ));
    let config = Config {
        wall_flow: Some(1.5),
        ..Config::default()
    };
    let out = run(&source, &config);
    for tag in ["ceiling", "fill"] {
        assert!(
            out.contains(&format!("E1.0 ; {tag}")),
            "{tag} moved:\n{out}"
        );
    }
    assert!(out.contains("E1.50000 ; loop1"), "wall scaled:\n{out}");
}

/// A bead on the plate is pressed by the plate rather than by a layer, so
/// surplus flow there has nowhere to go but sideways.
#[test]
fn the_layer_on_the_bed_is_left_as_sliced() {
    let mut source = String::from("; layer_height = 0.2\nM83\n");
    for index in 0..5 {
        source.push_str(&layer(0.2 + f64::from(index) * 0.2));
        source.push_str(";TYPE:Perimeter\n");
        source.push_str(&wall_of(2, &format!("L{index}loop"), 0.0, 10.0, 1.0));
    }
    let config = Config {
        wall_flow: Some(1.5),
        ..Config::default()
    };
    let out = run(&source, &config);
    assert!(out.contains("E1 ; L0loop1"), "bed layer, flat loop:\n{out}");
    assert!(
        out.contains("E1 ; L0loop2"),
        "bed layer, raised loop:\n{out}"
    );
    assert!(
        out.contains("E1.50000 ; L3loop1"),
        "the layers above:\n{out}"
    );
}

/// A file handed no settings at all still gets the shipped slope, and the
/// arithmetic of the raise is unchanged by it.
#[test]
fn the_shipped_default_meters_the_hidden_walls_over() {
    let source = middle_layer(&format!(
        ";TYPE:Perimeter\n{}",
        wall_of(2, "loop", 0.0, 10.0, 1.0)
    ));
    assert_eq!(Config::default().wall_flow, None);
    assert_eq!(Config::default().extra_flow, DEFAULT_EXTRA_FLOW);
    let out = run(&source, &Config::default());
    assert!(out.contains("E1.02500 ; loop1"), "{out}");
    assert!(out.contains("E1.02500 ; loop2"), "{out}");
}

/// The reference profile is the anchor: its layer is half its nozzle, so
/// it takes half of whatever slope is set. A file that states no width is
/// metered as if it were that profile.
#[test]
fn the_reference_profile_takes_half_the_slope() {
    let flow = |width| automatic_flow(0.2, width, DEFAULT_EXTRA_FLOW);
    assert_eq!(flow(Some(0.45)), 1.025);
    assert_eq!(flow(None), 1.025);
    assert_eq!(automatic_flow(0.2, Some(0.45), 0.10), 1.05);
    assert_eq!(automatic_flow(0.2, Some(0.45), 0.0), 1.0);
}

/// The corner two beads leave between them is as tall as the layer and as
/// wide as what is left of the spacing, so the share of a bead sitting in
/// one — and the flow that pays for it — rises with the layer height and
/// falls as the wall widens.
#[test]
fn the_flow_follows_the_layer_height_against_the_wall_width() {
    let round = |value: f64| (value * 1000.0).round() / 1000.0;
    let flow = |height, width| automatic_flow(height, width, DEFAULT_EXTRA_FLOW);
    assert_eq!(round(flow(0.1, Some(0.45))), 1.012);
    assert_eq!(round(flow(0.28, Some(0.45))), 1.037);
    assert_eq!(round(flow(0.2, Some(0.35))), 1.033);
    assert_eq!(round(flow(0.2, Some(0.65))), 1.017);
    // A 0.8 mm nozzle at a fine layer has barely any junction to pay for.
    assert_eq!(round(flow(0.15, Some(0.85))), 1.009);
}

/// Every number reaching the nozzle is held to what a printer can act on,
/// and a settings block is not a trustworthy source of any of them.
#[test]
fn a_width_a_bead_cannot_have_falls_back_to_the_shipped_flow() {
    for impossible in [
        Some(0.0),
        Some(-0.45),
        Some(f64::NAN),
        Some(f64::INFINITY),
        // Narrower than the caps the layer's own height gives the bead, so
        // the spacing works out at zero or less.
        Some(0.04),
        None,
    ] {
        assert_eq!(
            automatic_flow(0.2, impossible, DEFAULT_EXTRA_FLOW),
            1.025,
            "{impossible:?}"
        );
    }
    for impossible in [0.0, -0.2, f64::NAN] {
        assert_eq!(
            automatic_flow(impossible, Some(0.45), DEFAULT_EXTRA_FLOW),
            1.025,
            "{impossible}"
        );
    }
    // A slope that is not a number falls back to the shipped one, and
    // nothing derived may ask for more than a bead's neighbour can take.
    assert_eq!(automatic_flow(0.2, Some(0.45), f64::NAN), 1.025);
    assert_eq!(automatic_flow(0.2, Some(0.45), -1.0), 1.0);
    // A 0.3 mm layer through a 0.1 mm line is beads already laid past one
    // another's centres, so the ceiling floors out and it takes no extra.
    assert_eq!(automatic_flow(0.3, Some(0.1), 1e9), 1.0);
}

/// The ceiling is a guard against a width no slicer would state, not a
/// setting anyone prints against, so pin that it stays out of the way over
/// every geometry a slicer will produce: nozzles from 0.2 to 1.2 mm,
/// widths out to 1.2× the nozzle, and layers from a tenth of it to four
/// fifths. The bead only reaches its neighbour's centre past `h/s` of
/// 1.38, and the widest layer in that sweep is four fifths of a nozzle
/// narrower than its own line.
#[test]
fn the_flow_ceiling_never_binds_on_a_geometry_a_slicer_produces() {
    let (mut span, mut bound) = (0, 0);
    for nozzle in [0.2, 0.25, 0.3, 0.4, 0.5, 0.6, 0.8, 1.0, 1.2] {
        for wide in 0..=20 {
            let width = nozzle * (1.0 + f64::from(wide) / 100.0);
            for thick in 10..=80 {
                let height = nozzle * f64::from(thick) / 100.0;
                let ceiling = flow_ceiling(height, bead_spacing(height, width));
                span += 1;
                bound +=
                    usize::from(automatic_flow(height, Some(width), MAX_EXTRA_FLOW) >= ceiling);
            }
        }
    }
    assert_eq!(bound, 0, "{bound} of {span} reached the ceiling");
    // It is still a real limit. A 0.4 mm layer laid at a 0.37 mm line is
    // a bead nearly as tall as the gap beside it, and the top of the dial
    // is held back to what that gap can take.
    let (height, width) = (0.4, 0.37);
    assert_eq!(
        automatic_flow(height, Some(width), MAX_EXTRA_FLOW),
        flow_ceiling(height, bead_spacing(height, width))
    );
}

/// The width the file states is the one the flow is read from, so a
/// profile that lays wider beads pays less for the same layer.
#[test]
fn the_width_the_file_states_sets_the_flow() {
    let walls = format!(";TYPE:Perimeter\n{}", wall_of(2, "loop", 0.0, 10.0, 1.0));
    let narrow = run(
        &format!("; inner_wall_line_width = 0.35\n{}", middle_layer(&walls)),
        &Config::default(),
    );
    let wide = run(
        &format!(
            "; perimeter_extrusion_width = 0.65\n{}",
            middle_layer(&walls)
        ),
        &Config::default(),
    );
    assert!(narrow.contains("E1.03314 ; loop1"), "{narrow}");
    assert!(wide.contains("E1.01676 ; loop1"), "{wide}");
}

/// The flow is read per layer, not once per file, so a slice whose layers
/// vary meters each of them for the seam it actually has. A thick layer
/// leaves more of each bead in the corner beside it than a thin one.
#[test]
fn an_adaptive_slice_meters_each_layer_at_its_own_flow() {
    let walls = |tag: &str| format!(";TYPE:Perimeter\n{}", wall_of(2, tag, 0.0, 10.0, 1.0));
    let mut source = String::from("; inner_wall_line_width = 0.45\nM83\n");
    // Heights of 0.1 and 0.3 either side of the reference, laid down as
    // planes so the survey measures them rather than reading a nominal.
    for (index, z) in [0.2, 0.3, 0.4, 0.7, 1.0, 1.1].into_iter().enumerate() {
        source.push_str(&layer(z));
        source.push_str(&walls(&format!("L{index}loop")));
    }
    let outcome = apply(&source, &Config::default());
    let out = outcome.gcode;

    assert!(outcome.stats.flow.is_some(), "{:?}", outcome.stats);
    let (low, high) = range(outcome.stats.flow.expect("walls were metered"));
    let asks = |height| automatic_flow(height, Some(0.45), DEFAULT_EXTRA_FLOW);
    assert!(
        (low - asks(0.1)).abs() < 1e-9 && (high - asks(0.3)).abs() < 1e-9,
        "{low} to {high}"
    );
    // Layer 3 is 0.3 mm over a 0.4 mm plane, layer 1 is 0.1 mm over 0.2.
    assert!(out.contains("E1.03959 ; L3loop1"), "thick layer:\n{out}");
    assert!(out.contains("E1.01187 ; L1loop1"), "thin layer:\n{out}");
}

/// The dial names the slope, not the answer: it is the extra a wall takes
/// where the layer is as thick as the nozzle, and the geometry decides
/// where on that line each layer sits.
#[test]
fn the_dial_is_the_extra_a_layer_as_thick_as_the_nozzle_takes() {
    let source = format!(
        "; inner_wall_line_width = 0.45\n{}",
        middle_layer(&format!(
            ";TYPE:Perimeter\n{}",
            wall_of(2, "loop", 0.0, 10.0, 1.0)
        ))
    );
    let flow = |extra: f64| {
        let config = Config {
            extra_flow: extra,
            ..Config::default()
        };
        let out = run(&source, &config);
        let bead = out
            .lines()
            .find(|line| line.ends_with("; loop1"))
            .unwrap_or_else(|| panic!("a hidden wall:\n{out}"))
            .to_owned();
        e_of(&bead)
    };
    // A 0.2 mm layer is half of the 0.4 mm nozzle, so it takes half.
    assert!((flow(0.05) - 1.025).abs() < 1e-9, "{}", flow(0.05));
    assert!((flow(0.10) - 1.05).abs() < 1e-9, "{}", flow(0.10));
    assert!((flow(0.02) - 1.01).abs() < 1e-9, "{}", flow(0.02));
    // Zero is the raise and nothing else: metered exactly as sliced.
    assert_eq!(flow(0.0), 1.0);
}

/// An adaptive slice still meters every layer for its own height whatever
/// the slope is set to — the dial tilts the line, it does not replace it
/// with a constant.
#[test]
fn the_dial_keeps_a_layer_metered_for_its_own_height() {
    let walls = |tag: &str| format!(";TYPE:Perimeter\n{}", wall_of(2, tag, 0.0, 10.0, 1.0));
    let mut source = String::from("; inner_wall_line_width = 0.45\nM83\n");
    for (index, z) in [0.2, 0.3, 0.4, 0.7, 1.0, 1.1].into_iter().enumerate() {
        source.push_str(&layer(z));
        source.push_str(&walls(&format!("L{index}loop")));
    }
    let config = Config {
        extra_flow: 0.025,
        ..Config::default()
    };
    let outcome = apply(&source, &config);
    let (low, high) = range(outcome.stats.flow.expect("walls were metered"));
    let asks = |height| automatic_flow(height, Some(0.45), 0.025);
    assert!(
        (low - asks(0.1)).abs() < 1e-9 && (high - asks(0.3)).abs() < 1e-9,
        "{low} to {high}"
    );
    assert!(low < high, "the layers must still differ: {low} to {high}");
}

/// The visible wall is moved by half the width the flow adds, so turning
/// the flow down moves it less. Scaling one without the other would grow
/// or shrink the part.
#[test]
fn the_visible_wall_moves_with_the_dial() {
    let walls = format!(
        ";TYPE:Perimeter\n{}{}",
        wall_of(1, "loop", 0.6, 8.8, 1.0),
        skin()
    );
    let source = format!(
        "; external_perimeter_extrusion_width = 0.4\n; inner_wall_line_width = 0.45\n{}",
        middle_layer(&walls)
    );
    let inset = |extra: f64| {
        let config = Config {
            extra_flow: extra,
            ..Config::default()
        };
        let out = run(&source, &config);
        let bead = out
            .lines()
            .find(|line| line.ends_with("; skin1"))
            .unwrap_or_else(|| panic!("the visible wall:\n{out}"))
            .to_owned();
        y_of(&bead)
    };
    // Half of (flow - 1) times the spacing the 0.4 mm wall is laid at,
    // 0.357 at these layers, on the three-decimal grid a coordinate is
    // written to: 0.0045 at the shipped slope, and half of that, 0.0022,
    // lands on 0.002.
    assert_eq!(inset(0.05), 0.004);
    assert_eq!(inset(0.025), 0.002);
    assert_eq!(inset(0.10), 0.009);
    // No extra flow is no extra width, so there is nothing to move.
    assert_eq!(inset(0.0), 0.0);
}

/// Nothing a library caller passes may reach the nozzle as a coordinate it
/// cannot act on, and `f64::clamp` hands NaN straight back. A number past
/// the range is pulled into it, and the flow ceiling holds whatever is
/// left.
#[test]
fn a_slope_a_printer_cannot_act_on_is_ignored() {
    let source = format!(
        "; inner_wall_line_width = 0.45\n{}",
        middle_layer(&format!(
            ";TYPE:Perimeter\n{}",
            wall_of(2, "loop", 0.0, 10.0, 1.0)
        ))
    );
    for impossible in [f64::NAN, f64::INFINITY, -1.0, 1e9] {
        let config = Config {
            extra_flow: impossible,
            ..Config::default()
        };
        let out = run(&source, &config);
        assert!(!out.contains("NaN"), "{impossible}");
        let top = automatic_flow(0.2, Some(0.45), MAX_EXTRA_FLOW);
        let (low, high) = range(apply(&source, &config).stats.flow.expect("metered"));
        assert!(
            (1.0..=top).contains(&low) && (1.0..=top).contains(&high),
            "{impossible} gave {low} to {high}"
        );
    }
}

/// A number on the command line is the answer, whatever the file states,
/// so a print can be tested at a flow the geometry would never pick.
#[test]
fn a_flow_given_on_the_command_line_overrides_the_file() {
    let source = format!(
        "; inner_wall_line_width = 0.35\n{}",
        middle_layer(&format!(
            ";TYPE:Perimeter\n{}",
            wall_of(2, "loop", 0.0, 10.0, 1.0)
        ))
    );
    let config = Config {
        wall_flow: Some(1.1),
        ..Config::default()
    };
    let out = run(&source, &config);
    assert!(out.contains("E1.10000 ; loop1"), "{out}");
}

/// The multiplier is booked apart from the flow the geometry asks for, so
/// a climbing or capped bead books only the percentage and not the step it
/// was already metered for.
#[test]
fn the_multiplier_is_booked_apart_from_the_flow_it_scales() {
    let source = middle_layer(&format!(
        ";TYPE:Perimeter\n{}",
        wall_of(2, "loop", 0.0, 10.0, 1.0)
    ));
    let config = Config {
        wall_flow: Some(1.05),
        ..Config::default()
    };
    let outcome = apply(&source, &config);
    // The fixture lays 40 mm metered for its own geometry, 8 mm of it on
    // the bed, which is never scaled; 5% of the 32 mm above it is 1.6.
    assert!(
        (outcome.stats.multiplier_filament - 1.6).abs() < 1e-9,
        "{:?}",
        outcome.stats
    );
    assert!(
        (outcome.stats.filament - 41.6).abs() < 1e-9,
        "{:?}",
        outcome.stats
    );
}

#[test]
fn a_multiplier_of_one_leaves_every_bead_metered_as_sliced() {
    let source = middle_layer(&format!(
        ";TYPE:Perimeter\n{}",
        wall_of(2, "loop", 0.0, 10.0, 1.0)
    ));
    let outcome = apply(&source, &plain());
    assert_eq!(outcome.stats.multiplier_filament, 0.0);
    assert!(outcome.gcode.contains("E1 ; loop2"), "{}", outcome.gcode);
    assert!(outcome.gcode.contains("E1 ; loop1"), "{}", outcome.gcode);
}

/// The visible wall is brought toward the loop behind it by half of what
/// the multiplier would have added as flow, closing the same volume across
/// the staggered joint without putting more material into the part.
#[test]
fn the_visible_wall_is_drawn_in_toward_the_loop_behind_it() {
    let source = with_skin_width(&middle_layer(&format!(
        ";TYPE:Perimeter\n{}{}",
        wall_of(1, "loop", 0.6, 8.8, 1.0),
        skin()
    )));
    let out = run(&source, &drawn_in());
    // A 0.4 mm wall is laid 0.357 mm from its neighbour at these layers, so
    // 1.3 of the flow widens it by 0.107 and it moves in by half of that,
    // 0.054, on every side. The bead gains 1.3 of the flow it had, over a
    // path 0.9893 of its old length.
    assert!(out.contains("G1 X9.946 Y0.054 E1.28607 ; skin1"), "{out}");
    assert!(out.contains("G1 X9.946 Y9.946 E1.28607"), "{out}");
    assert!(out.contains("G1 X0.054 Y9.946 E1.28607"), "{out}");
    assert!(out.contains("G1 X0.054 Y0.054 E1.28607"), "{out}");
    // The travel that reaches the loop has to land where it now starts.
    assert!(out.contains("G1 X0.054 Y0.054 F9000"), "{out}");
}

/// The offset and the flow are two halves of one answer, so where the flow
/// is derived the offset has to move with it. A file stating a wall width
/// the geometry reads a higher flow off draws the visible wall in further
/// than one stating a width it reads a lower flow off.
#[test]
fn the_visible_wall_follows_the_flow_the_file_asked_for() {
    let walls = format!(
        ";TYPE:Perimeter\n{}{}",
        wall_of(1, "loop", 0.6, 8.8, 1.0),
        skin()
    );
    let inset = |stated: &str| {
        let source = format!(
            "; external_perimeter_extrusion_width = 0.4\n; inner_wall_line_width = {stated}\n{}",
            middle_layer(&walls)
        );
        let out = run(&source, &Config::default());
        let bead = out
            .lines()
            .find(|line| line.ends_with("; skin1"))
            .unwrap_or_else(|| panic!("the visible wall:\n{out}"))
            .to_owned();
        y_of(&bead)
    };
    // Half of (flow - 1) times the 0.357 mm spacing the visible wall is
    // laid at: 0.0059 at the narrow width against 0.0030 at the wide one.
    let (narrow, wide) = (inset("0.35"), inset("0.65"));
    assert!((narrow - 0.0059).abs() < 5e-4, "narrow wall at {narrow}");
    assert!((wide - 0.0030).abs() < 5e-4, "wide wall at {wide}");
    assert!(narrow > wide, "{narrow} should sit further in than {wide}");
}

/// A ring does not return exactly to where it started: a slicer stops the
/// last bead short so the two ends do not pile up at the seam. Measured
/// over 308 loops of two real OrcaSlicer files, every one lands 0.0385 to
/// 0.0411 mm short — the `seam_gap` default, a tenth of a 0.4 mm nozzle —
/// and not one closes to the micron this used to demand. On a real file
/// that left the visible wall scaled but never moved, which grows the part
/// by half the width every bead gained.
#[test]
fn a_ring_stopped_short_of_its_seam_is_still_moved() {
    let source = with_skin_width(&middle_layer(&format!(
        ";TYPE:Perimeter\n{}{}",
        wall_of(1, "loop", 0.6, 8.8, 1.0),
        seamed_skin(0.04)
    )));
    let out = run(&source, &Config::default());
    let bead = out
        .lines()
        .find(|line| line.ends_with("; skin1"))
        .unwrap_or_else(|| panic!("the visible wall:\n{out}"));
    // A 0.4 mm wall laid at 0.357 mm spacing, metered at the 1.025 its
    // geometry asks for, moves 0.004 inward.
    let moved = y_of(bead);
    assert!(
        (moved - 0.004).abs() < 1e-9,
        "a ring left 0.04 mm short must still be drawn in: {bead}"
    );
}

/// The gap is there so the seam does not get a double bead, so offsetting
/// the ring must not quietly pull it shut. Every vertex the loop was drawn
/// through is offset, the closing one included.
#[test]
fn offsetting_a_ring_leaves_its_seam_gap_where_it_was() {
    let source = with_skin_width(&middle_layer(&format!(
        ";TYPE:Perimeter\n{}{}",
        wall_of(1, "loop", 0.6, 8.8, 1.0),
        seamed_skin(0.04)
    )));
    let out = run(&source, &Config::default());
    let beads: Vec<(f64, f64)> = out
        .lines()
        .skip_while(|line| !line.ends_with("; skin1"))
        .take(4)
        .map(|line| {
            let parsed = Line::parse(line);
            (word(&parsed, parsed.x).expect("an X"), y_of(line))
        })
        .collect();
    assert_eq!(beads.len(), 4, "the four beads of the wall:\n{out}");
    let closes = beads[3];
    // The loop now starts at (0.004, 0.004) and its last bead has to stop
    // the same 0.04 short of it as the slicer left.
    assert!(
        (closes.0 - 0.004).abs() < 1e-9 && (closes.1 - 0.044).abs() < 1e-9,
        "the seam gap must survive: {closes:?}"
    );
}

/// An open fragment has no inside to move toward. A thin wall breaks into
/// them, and offsetting one drags a visible surface sideways for no
/// reason, so the two ends being a whole bead apart is where a ring stops
/// being a ring.
#[test]
fn an_open_fragment_is_left_exactly_where_it_was() {
    let source = with_skin_width(&middle_layer(&format!(
        ";TYPE:Perimeter\n{}{}",
        wall_of(1, "loop", 0.6, 8.8, 1.0),
        // The stated width is 0.4, and 1 mm apart is well past it.
        seamed_skin(1.0)
    )));
    let out = run(&source, &Config::default());
    let bead = out
        .lines()
        .find(|line| line.ends_with("; skin1"))
        .unwrap_or_else(|| panic!("the visible wall:\n{out}"));
    assert_eq!(
        y_of(bead),
        0.0,
        "an open fragment must not be moved: {bead}"
    );
}

/// A bead widens about its own centre, so a wall moved in by half of what
/// it gains reaches further into the joint while the face the eye lands on
/// does not move at all. The part measures what it was sliced to measure.
#[test]
fn the_visible_wall_keeps_the_dimension_it_was_sliced_to() {
    let source = with_skin_width(&middle_layer(&format!(
        ";TYPE:Perimeter\n{}{}",
        wall_of(1, "loop", 0.6, 8.8, 1.0),
        skin()
    )));
    let out = run(&source, &drawn_in());
    let bead = out
        .lines()
        .find(|line| line.ends_with("; skin1"))
        .expect("the visible wall");
    let shifted = y_of(bead);

    let (nominal, flow, height) = (0.4, 1.3, 0.2);
    // The area scales, not the nominal width, so the bead keeps its round
    // caps and gains `flow - 1` of its spacing.
    let widened =
        flow * bead_spacing(height, nominal) + height * (1.0 - std::f64::consts::FRAC_PI_4);
    let outer_face = |centre: f64, width: f64| centre - width / 2.0;
    assert!(
        // The coordinate itself is written on a micron grid.
        (outer_face(shifted, widened) - outer_face(0.0, nominal)).abs() < 5e-4,
        "the wall ran at 0.0 and now runs at {shifted}, and widening it by \
         {} must leave its outer face where it was",
        widened - nominal
    );
}

/// Flow per mm is what the slicer metered plus what the widening asks for,
/// so a path a shade shorter carries proportionally less of it.
#[test]
fn a_wall_drawn_in_carries_the_filament_its_new_width_asks_for() {
    let source = with_skin_width(&middle_layer(&format!(
        ";TYPE:Perimeter\n{}{}",
        wall_of(1, "loop", 0.6, 8.8, 1.0),
        skin()
    )));
    let out = run(&source, &drawn_in());
    // Each side runs 9.893 of the 10 mm it did, at 1.3 the flow.
    assert!(!out.contains("E1.00000 ; skin1"), "{out}");
    assert!(out.contains("E1.28607 ; skin1"), "{out}");
}

/// A hole is emitted clockwise, so the same rule moves its wall out of the
/// hole and into the material around it.
#[test]
fn a_hole_is_opened_up_rather_than_closed() {
    let mut hole = String::from(";TYPE:External perimeter\nG1 X0.00 Y0.00 F9000\n");
    for (x, y) in [(0.0, 10.0), (10.0, 10.0), (10.0, 0.0), (0.0, 0.0)] {
        hole.push_str(&format!("G1 X{x:.2} Y{y:.2} E1.0\n"));
    }
    let source = with_skin_width(&middle_layer(&format!(
        ";TYPE:Perimeter\n{}{hole}",
        wall_of(1, "loop", 0.6, 8.8, 1.0)
    )));
    let out = run(&source, &drawn_in());
    assert!(
        out.contains("G1 X-0.054 Y10.054"),
        "a hole must open, not close:\n{out}"
    );
}

/// A file that states no width still has its visible wall drawn in, on the
/// reference profile the flow already falls back to. Scaling a wall
/// without moving it grows the part by half of what it gained, so the two
/// halves of the change have to fall back together — Cura writes its
/// settings in a form nothing else parses, and this is that file.
#[test]
fn a_file_that_states_no_wall_width_falls_back_to_the_reference_profile() {
    let source = middle_layer(&format!(
        ";TYPE:Perimeter\n{}{}",
        wall_of(1, "loop", 0.6, 8.8, 1.0),
        skin()
    ));
    let out = run(&source, &drawn_in());
    // 0.45 mm at 0.2 mm layers and a flow of 1.3 is an offset of 0.061.
    assert!(out.contains("G1 X9.939 Y0.061"), "{out}");
}

/// Asking for no extra flow asks for no compensation either.
#[test]
fn a_multiplier_of_one_leaves_the_visible_wall_where_it_was() {
    let source = with_skin_width(&middle_layer(&format!(
        ";TYPE:Perimeter\n{}{}",
        wall_of(1, "loop", 0.6, 8.8, 1.0),
        skin()
    )));
    let out = run(&source, &plain());
    assert!(out.contains("G1 X10.00 Y0.00 E1 ; skin1"), "{out}");
}

/// The visible wall takes its place in the alternation instead of being
/// held out of it. Three walls leave both ends of the stack flat and raise
/// the one between them; four raise the far end, so a wall exposed on both
/// faces has one of them raised whenever the count is even.
#[test]
fn the_visible_wall_anchors_an_alternation_that_runs_the_whole_stack() {
    let stack = |walls: usize| {
        let mut body = String::from(";TYPE:Perimeter\n");
        for wall in (1..walls).rev() {
            body.push_str(&wall_of(
                1,
                &format!("in{wall}"),
                0.45 * wall as f64,
                10.0 - 0.9 * wall as f64,
                1.0,
            ));
        }
        body.push_str(";TYPE:External perimeter\n");
        body.push_str(&wall_of(1, "skin", 0.0, 10.0, 1.0));
        let out = run(&middle_layer(&body), &plain());
        loop_states(&out)
    };

    assert_eq!(
        stack(3),
        vec![
            ("in21".to_owned(), false),
            ("in11".to_owned(), true),
            ("skin1".to_owned(), false),
        ],
        "three walls: only the one between the ends"
    );
    assert_eq!(
        stack(4),
        vec![
            ("in31".to_owned(), true),
            ("in21".to_owned(), false),
            ("in11".to_owned(), true),
            ("skin1".to_owned(), false),
        ],
        "four walls: the far end is raised too"
    );
}

/// A wall printed `inner-outer-inner` puts the visible wall between the
/// two halves of the stack, so a loop's place in the buffer is no longer
/// its place in the wall: the innermost loop is printed immediately after
/// the visible one while sitting a whole stack away from it. Numbering by
/// buffer position leaves it and its neighbour on the same level, which is
/// the one thing bricking exists to prevent.
#[test]
fn a_wall_printed_inner_outer_inner_still_alternates_by_geometry() {
    let ring = |wall: usize, tag: &str| {
        wall_of(1, tag, 0.45 * wall as f64, 10.0 - 0.9 * wall as f64, 1.0)
    };
    // Four walls, the visible one third out of the nozzle.
    let body = format!(
        ";TYPE:Perimeter\n{}{}\
         ;TYPE:External perimeter\n{}\
         ;TYPE:Perimeter\n{}",
        ring(2, "in2"),
        ring(1, "in1"),
        ring(0, "skin"),
        ring(3, "in3"),
    );
    let states = loop_states(&run(&middle_layer(&body), &plain()));

    assert_eq!(
        states,
        vec![
            ("in21".to_owned(), false),
            ("in11".to_owned(), true),
            ("skin1".to_owned(), false),
            ("in31".to_owned(), true),
        ],
        "reading outwards that is skin flat, in1 raised, in2 flat, in3 raised"
    );
}

/// The loop printed after the visible wall in `inner-outer-inner` is the
/// innermost one, which on a thick wall runs further from it than any two
/// neighbours ever do. Grouping only against the loop printed before would
/// split it off into a contour of its own and number it from scratch.
#[test]
fn a_thick_wall_stays_one_contour_however_its_loops_were_sequenced() {
    let ring = |wall: usize, tag: &str| {
        wall_of(1, tag, 0.45 * wall as f64, 12.0 - 0.9 * wall as f64, 1.0)
    };
    let mut body = String::from(";TYPE:Perimeter\n");
    for wall in [4usize, 3, 2, 1] {
        body.push_str(&ring(wall, &format!("in{wall}")));
    }
    body.push_str(";TYPE:External perimeter\n");
    body.push_str(&ring(0, "skin"));
    body.push_str(";TYPE:Perimeter\n");
    // 2.25 mm from the visible wall, well past `MAX_LOOP_GAP`.
    body.push_str(&ring(5, "in5"));
    let states = loop_states(&run(&middle_layer(&body), &plain()));

    assert_eq!(
        states,
        vec![
            ("in41".to_owned(), false),
            ("in31".to_owned(), true),
            ("in21".to_owned(), false),
            ("in11".to_owned(), true),
            ("skin1".to_owned(), false),
            ("in51".to_owned(), true),
        ],
        "the innermost loop belongs to the wall, not to a contour of its own"
    );
}

/// One wall shows one visible loop, so a second one is a second wall
/// however close it runs. Grouping purely by "runs beside anything already
/// in this contour" chains a part's islands together as each joined loop
/// widens the contour's reach: measured on a 2-wall Benchy, 61 contours
/// held two walls and one held nine, and every wall after the first was
/// numbered from the first wall's visible loop.
#[test]
fn each_visible_wall_opens_a_contour_of_its_own() {
    // Three islands a millimetre apart, closer than two loops of one wall.
    let mut body = String::new();
    for (island, origin) in [(1, 0.0), (2, 11.0), (3, 22.0)] {
        body.push_str(";TYPE:Perimeter\n");
        body.push_str(&wall_of(1, &format!("in{island}"), origin + 0.45, 9.1, 1.0));
        body.push_str(";TYPE:External perimeter\n");
        body.push_str(&wall_of(1, &format!("out{island}"), origin, 10.0, 1.0));
    }
    let states = loop_states(&run(&middle_layer(&body), &plain()));

    assert_eq!(
        states,
        vec![
            ("in11".to_owned(), true),
            ("out11".to_owned(), false),
            ("in21".to_owned(), true),
            ("out21".to_owned(), false),
            ("in31".to_owned(), true),
            ("out31".to_owned(), false),
        ],
        "every island must be numbered from its own visible wall"
    );
}

/// An arc moves with the rest of the loop: it keeps the centre it was
/// drawn about, its radius changes by the offset, and the `I`/`J` that
/// name the centre from its start point are restated because that start
/// point moved. Without the restatement the printer sweeps the old centre
/// and the bead spirals away from the loop it belongs to.
#[test]
fn a_visible_wall_drawn_with_an_arc_moves_with_its_centre() {
    let arc = ";TYPE:External perimeter\n\
         G1 X0.00 Y0.00 F9000\n\
         G1 X10.00 Y0.00 E1.0 ; arcskin\n\
         G2 X10.00 Y10.00 I0 J5 E1.0\n\
         G1 X0.00 Y10.00 E1.0\n\
         G1 X0.00 Y0.00 E1.0\n";
    let source = with_skin_width(&middle_layer(&format!(
        ";TYPE:Perimeter\n{}{arc}",
        wall_of(1, "loop", 0.6, 8.8, 1.0)
    )));
    let out = run(&source, &drawn_in());
    // The arc turns clockwise, so the material is on the far side of its
    // centre and the offset takes the radius from 5 out to 5.054.
    assert!(
        out.contains("G2 X10.000 Y10.054 I0.000 J5.054"),
        "the arc must be redrawn about the centre it kept: {out}"
    );
    // Start (10.000, -0.054) plus J puts the centre back at (10, 5).
    assert!(
        out.contains("G1 X10.000 Y-0.054 E1.29311 ; arcskin"),
        "{out}"
    );
}

/// An open fragment has no inside, so there is no direction to move it in.
#[test]
fn an_open_run_of_visible_wall_is_not_moved() {
    let open = ";TYPE:External perimeter\n\
         G1 X0.00 Y0.00 F9000\n\
         G1 X10.00 Y0.00 E1.0 ; open\n\
         G1 X10.00 Y10.00 E1.0\n";
    let source = with_skin_width(&middle_layer(&format!(
        ";TYPE:Perimeter\n{}{open}",
        wall_of(1, "loop", 0.6, 8.8, 1.0)
    )));
    let out = run(&source, &drawn_in());
    assert!(out.contains("G1 X10.00 Y0.00 E1.30000 ; open"), "{out}");
}

/// The half layer a column is displaced by is paid over two layers rather
/// than in one bead, and given back in one when the column is capped.
#[test]
fn a_column_climbs_to_its_offset_instead_of_jumping() {
    let mut source = String::from("; layer_height = 0.2\nM83\n");
    for index in 0..5 {
        source.push_str(&layer(0.2 + f64::from(index) * 0.2));
        source.push_str(";TYPE:Perimeter\n");
        source.push_str(&wall_of(2, &format!("L{index}loop"), 0.0, 10.0, 1.0));
    }
    let out = run(&source, &plain());
    let flow = |tag: &str| {
        out.lines()
            .find(|line| line.ends_with(tag))
            .map(|line| e_of(line))
            .unwrap_or_else(|| panic!("{tag} missing from:\n{out}"))
    };
    // Flat on the bed, a quarter of a layer taller on each of the two
    // climbing layers, as sliced once the column is up, and half a layer
    // short where the cap gives the climb back.
    assert_eq!(flow("L0loop2"), 1.0, "bed layer");
    assert_eq!(flow("L1loop2"), 1.25, "first climb");
    assert_eq!(flow("L2loop2"), 1.25, "second climb");
    assert_eq!(flow("L3loop2"), 1.0, "column up");
    assert_eq!(flow("L4loop2"), 0.5, "cap");
    assert!(
        out.contains("Z0.450 ; bricklayers brick raised"),
        "half the shift on the first climb:\n{out}"
    );
    assert!(
        out.contains("Z0.700 ; bricklayers brick raised"),
        "full shift on the second:\n{out}"
    );
}

/// A bead on the bed is pressed against the build plate rather than
/// against a layer, so raising it presses nothing and the extra flow it
/// would need spreads sideways. There is no seam under it to stagger
/// either. On a Benchy this filled in the bottom nameplate, which is one
/// layer deep.
#[test]
fn the_layer_laid_on_the_bed_is_never_raised() {
    let mut source = String::from("; layer_height = 0.2\nM83\n");
    for index in 0..4 {
        source.push_str(&layer(0.2 + f64::from(index) * 0.2));
        source.push_str(";TYPE:Perimeter\n");
        source.push_str(&wall_of(2, &format!("L{index}loop"), 0.0, 10.0, 1.0));
    }
    let outcome = apply(&source, &Config::default());
    let bed: Vec<&str> = outcome
        .gcode
        .lines()
        .take_while(|line| !line.contains("L1loop"))
        .collect();
    assert!(
        !bed.iter().any(|line| line.contains("raised")),
        "nothing may be raised on the bed layer:\n{}",
        bed.join("\n")
    );
    assert!(
        bed.iter().all(|line| !line.contains("E1.5")),
        "nor over-extruded:\n{}",
        bed.join("\n")
    );
}

/// The cap gives back exactly what the column climbed, which is less than
/// half a layer when the wall ended before it finished climbing.
#[test]
fn a_cap_gives_back_only_the_climb_the_column_took() {
    let mut source = String::from("; layer_height = 0.2\nM83\n");
    for index in 0..3 {
        source.push_str(&layer(0.2 + f64::from(index) * 0.2));
        source.push_str(";TYPE:Perimeter\n");
        source.push_str(&wall_of(2, &format!("L{index}loop"), 0.0, 10.0, 1.0));
    }
    let out = run(&source, &plain());
    let flow = |tag: &str| {
        out.lines()
            .find(|line| line.ends_with(tag))
            .map(|line| e_of(line))
            .unwrap_or_else(|| panic!("{tag} missing from:\n{out}"))
    };
    assert_eq!(flow("L1loop2"), 1.25, "climbed a quarter of a layer");
    assert_eq!(flow("L2loop2"), 0.75, "so the cap gives a quarter back");
}

/// A wall that stands for two layers never climbs, so it is left exactly
/// as the slicer wrote it. Embossed text and other one- or two-layer
/// detail lands here.
#[test]
fn a_wall_too_short_to_climb_is_left_alone() {
    let wall = format!(";TYPE:Perimeter\n{}", wall_of(2, "loop", 0.0, 10.0, 1.0));
    let source = relative(&format!("{}{wall}{}{wall}", layer(0.2), layer(0.4)));
    let out = run(&source, &Config::default());
    assert!(!out.contains("raised"), "{out}");
    assert!(!out.contains("E1.25000"), "{out}");
}

/// A file whose slicer varied the layer height, with `body` on a layer
/// half as deep as the rest of them.
///
/// The layer under test runs 0.6 to 0.7 while every other one is 0.2, so a
/// raise taken from its own height cannot be confused with one taken from
/// the 0.2 the file declares. It sits three layers above the bed, clear of
/// the [`RAMP`], and carries a wall above it for the reason
/// [`middle_layer`] does.
fn varied_layers(body: &str) -> String {
    let same = untagged(body);
    let wall = ";TYPE:Perimeter\n\
         G1 X0 Y0 F9000\n\
         G1 X10 Y0 E0.5\n\
         G1 X10 Y10 E0.5\n\
         G1 X0 Y10 E0.5\n\
         G1 X0 Y0 E0.5\n";
    relative(&format!(
        "{}{wall}{}{same}{}{same}{}{body}{}{wall}",
        layer(0.2),
        layer(0.4),
        layer(0.6),
        layer(0.7),
        layer(0.9),
    ))
}

/// Half of one layer height for the whole file staggers every layer that
/// is not that height by the wrong amount, and an adaptive slice has
/// almost none that are. Measured on a real Benchy sliced adaptively: the
/// layers ran 0.081 to 0.119 mm against a declared 0.2, so 383 of 511 were
/// lifted further than their own height and stood clear of the layer above
/// with a gap underneath.
#[test]
fn a_raise_is_half_of_the_layer_it_belongs_to() {
    let source = varied_layers(&format!(";TYPE:Perimeter\n{}", wall(2, "loop")));
    let out = run(&source, &Config::default());
    assert!(
        out.contains("Z0.750 ; bricklayers brick raised"),
        "the layer is 0.1 deep, so it takes 0.05:\n{out}"
    );
    assert!(
        !out.contains("Z0.800 ; bricklayers brick raised"),
        "half the declared 0.2 is a whole layer here:\n{out}"
    );
}

/// A raised bead starts on top of whatever its own column left on the
/// layer below, so where the layer thins the column has already filled
/// part of it and the bead is metered for the gap that is left.
#[test]
fn a_bead_is_metered_for_the_gap_its_own_column_left() {
    let source = varied_layers(&format!(";TYPE:Perimeter\n{}", wall(2, "loop")));
    let out = run(&source, &plain());
    let raised = out
        .lines()
        .find(|line| line.ends_with("loop2"))
        .map(|line| e_of(line))
        .unwrap_or_else(|| panic!("loop2 missing from:\n{out}"));
    // The column below stands 0.1 above the 0.6 plane and the nozzle is at
    // 0.75, so the bead spans 0.05 of a layer metered for 0.1.
    assert_eq!(raised, 0.25, "half the flow of a 0.5 bead:\n{out}");
}

/// The region buffer and the loop list are reused between regions, so a
/// second wall in the same layer has to be grouped and numbered from
/// scratch rather than from whatever the first left.
#[test]
fn a_second_region_in_a_layer_is_grouped_on_its_own() {
    let source = middle_layer(&format!(
        ";TYPE:Perimeter\n{}\
         ;TYPE:External perimeter\nG1 X0 Y0 F9000\nG1 X10 Y0 E0.5\n\
         ;TYPE:Perimeter\n{}",
        wall_of(2, "near", 0.0, 10.0, 0.5),
        wall_of(3, "far", 40.0, 10.0, 0.5),
    ));
    let out = run(&source, &Config::default());

    // Numbering runs outwards from the loop against the visible wall,
    // which each slicer prints last, so the raise alternates from there.
    assert_eq!(
        loop_states(&out),
        [
            ("near1".to_owned(), false),
            ("near2".to_owned(), true),
            ("far1".to_owned(), true),
            ("far2".to_owned(), false),
            ("far3".to_owned(), true),
        ],
        "{out}"
    );
}

/// Slicers scatter their own annotations through a wall. They are not
/// region markers, so they must neither end the region nor be dropped.
#[test]
fn a_slicer_annotation_inside_a_wall_is_replayed_in_place() {
    let source = middle_layer(&format!(
        ";TYPE:Perimeter\n; LINE_WIDTH: 0.42\n{}",
        wall(2, "loop")
    ));
    let out = run(&source, &Config::default());

    assert!(
        out.contains("; LINE_WIDTH: 0.42"),
        "annotation kept:\n{out}"
    );
    assert_eq!(
        loop_states(&out)
            .into_iter()
            .filter(|(tag, _)| tag.starts_with("loop"))
            .collect::<Vec<_>>(),
        [("loop1".to_owned(), false), ("loop2".to_owned(), true)],
        "the annotation must not split the wall:\n{out}"
    );
}

#[test]
fn absolute_extrusion_stays_continuous() {
    let body = ";TYPE:Perimeter\n\
         G1 X0.45 Y0.45 F9000\n\
         G1 X9.55 Y0.45 E{a} ; loop1\n\
         G1 X9.55 Y9.55 E{b}\n\
         G1 X0.45 Y9.55 E{c}\n\
         G1 X0.45 Y0.45 E{d}\n\
         G1 X0 Y0 F9000\n\
         G1 X10 Y0 E{e} ; loop2\n\
         G1 X10 Y10 E{f}\n\
         G1 X0 Y10 E{g}\n\
         G1 X0 Y0 E{h}\n";
    // One absolute stream climbing by 1 mm a move, over a wall that runs
    // the height of the file so the layer under test is neither where its
    // column starts nor where it ends.
    let mut source = String::from("; layer_height = 0.2\nM82\n");
    let mut e = 0.0;
    let next = |e: &mut f64| {
        let mut text = body.to_string();
        for key in ["{a}", "{b}", "{c}", "{d}", "{e}", "{f}", "{g}", "{h}"] {
            *e += 1.0;
            text = text.replacen(key, &format!("{e:.1}"), 1);
        }
        text
    };
    // Only the layer under test keeps its tags, so the copies that give
    // its column something to stand on cannot be matched instead.
    for z in [0.2, 0.4, 0.6, 0.8] {
        source.push_str(&layer(z));
        source.push_str(&untagged(&next(&mut e)));
    }
    source.push_str(&layer(1.0));
    source.push_str(&next(&mut e));
    e += 1.0;
    source.push_str(&format!(";TYPE:Solid infill\nG1 X30 Y0 E{e:.1}\n"));
    source.push_str(&layer(1.2));
    source.push_str(&untagged(&next(&mut e)));

    let config = Config {
        wall_flow: Some(2.0),
        ..Config::default()
    };
    let out = run(&source, &config);

    // Read the stream back as per-move deltas, which is what the machine
    // acts on and what has to stay right however much the rescale shifted
    // the absolute values.
    let mut last = 0.0;
    let mut moves = Vec::new();
    for line in out.lines() {
        let parsed = Line::parse(line);
        if !parsed.draws() {
            continue;
        }
        if let Some(value) = word(&parsed, parsed.e) {
            moves.push((line.to_owned(), value - last));
            last = value;
        }
    }
    assert!(
        moves.iter().all(|(_, delta)| *delta > 0.0),
        "the extruder never runs backwards: {out}"
    );
    let delta = |tag: &str| {
        moves
            .iter()
            .find(|(line, _)| line.ends_with(tag))
            .map(|(_, delta)| *delta)
            .unwrap_or_else(|| panic!("{tag} missing from:\n{out}"))
    };
    assert_eq!(delta("; loop1"), 2.0, "the loop on the plane is doubled");
    assert_eq!(delta("; loop2"), 2.0, "and so is the raised one");
    assert!(
        out.contains("G1 X30 Y0 E"),
        "the infill after it is kept: {out}"
    );
}

/// Whether a line has to be written again is whether the value it should
/// carry differs from the one it already has. Asking a global drift flag
/// instead is wrong inside a buffered region: the region is read to its
/// end before any of it is emitted, so the input position sits ahead of
/// the output and the two coincide by accident every so often. The line
/// where they met came out carrying its original, now stale, absolute
/// value — on a Cura-flavoured file the extruder ran 0.6 mm backwards
/// mid-wall and then asked for a double-length move to catch up.
#[test]
fn an_absolute_stream_never_runs_backwards() {
    // The first layer's raised bead is metered thicker, which shifts every
    // value after it and sets up the coincidence.
    let mut source = String::from("; layer_height = 0.2\nM82\nG92 E0\n");
    let mut e = 0.0;
    for index in 0..6 {
        source.push_str(&layer(0.2 + f64::from(index) * 0.2));
        source.push_str(";TYPE:Perimeter\n");
        for inset in [0.9_f64, 0.45] {
            source.push_str(&format!("G1 X{inset:.2} Y{inset:.2} F9000\n"));
            let far = 20.0 - inset;
            for (x, y) in [(far, inset), (far, far), (inset, far), (inset, inset)] {
                e += 0.6;
                source.push_str(&format!("G1 X{x:.3} Y{y:.3} E{e:.5}\n"));
            }
        }
        source.push_str(";TYPE:Solid infill\nG1 X2 Y2 F9000\n");
        e += 1.2;
        source.push_str(&format!("G1 X18 Y18 E{e:.5}\n"));
    }
    let out = run(&source, &Config::default());

    let mut position = 0.0;
    let mut moves = 0;
    for line in out.lines() {
        let parsed = Line::parse(line);
        let Some(value) = word(&parsed, parsed.e).filter(|_| parsed.draws()) else {
            continue;
        };
        moves += 1;
        assert!(
            value >= position,
            "{line} pulls the filament back from {position}:\n{out}"
        );
        assert!(
            value - position <= 1.5,
            "{line} asks for {} mm in one move:\n{out}",
            value - position
        );
        position = value;
    }
    assert!(moves > 50, "expected the whole file to be checked");
}

#[test]
fn numbering_follows_the_wall_order_the_slicer_used() {
    // Printed the other way round, the loop against the visible wall is
    // the first one out of the nozzle rather than the last.
    let source = middle_layer(&format!(";TYPE:Perimeter\n{}", wall(2, "loop")));
    let config = Config {
        external_perimeters_first: true,
        ..Config::default()
    };
    let out = run(&source, &config);
    assert_eq!(
        loop_states(&out),
        vec![("loop1".to_owned(), true), ("loop2".to_owned(), false)],
        "{out}"
    );
}

/// A layer height that is not a length would become half a shift and drive
/// the nozzle down into the layer below, or write `ZNaN` into the file.
/// Every source of one is filtered, this included.
#[test]
fn a_layer_height_that_is_not_a_length_is_ignored() {
    let source = middle_layer(&format!(";TYPE:Perimeter\n{}", wall(2, "loop")));
    let sane = run(&source, &Config::default());

    for height in [0.0, -0.4, f64::NAN, f64::INFINITY] {
        let config = Config {
            layer_height: Some(height),
            ..Config::default()
        };
        let outcome = apply(&source, &config);
        assert_eq!(
            outcome.gcode, sane,
            "--layer-height {height} should fall back to the file's own"
        );
        for line in outcome.gcode.lines() {
            let parsed = Line::parse(line);
            if let Some(z) = word(&parsed, parsed.z) {
                assert!(z.is_finite() && z >= 0.0, "{line}");
            }
        }
    }
}

/// Cura resets the extruder origin periodically to keep `E` from growing
/// without bound, and the reset can land inside a wall. The region's own
/// moves have not been metered out when it arrives, so replaying them
/// after it measured their absolute positions from the wrong zero: the
/// first move after `G92 E0` asked for 2.5 mm of filament in one go.
#[test]
fn a_g92_inside_a_wall_keeps_the_absolute_stream_honest() {
    let source = format!(
        "; layer_height = 0.2\nM82\n{}{}{};TYPE:Perimeter\n\
         G1 X0.45 Y0.45 F9000\n\
         G1 X9.55 Y0.45 E1.0\n\
         G1 X9.55 Y9.55 E2.0\n\
         G92 E0\n\
         G1 X0 Y0 F9000\n\
         G1 X10 Y0 E1.0\n\
         G1 X10 Y10 E2.0\n",
        layer(0.2),
        layer(0.4),
        layer(0.6),
    );
    let config = Config {
        wall_flow: Some(1.3),
        ..Config::default()
    };
    let out = run(&source, &config);

    // The origin line is not an extrusion and must survive untouched.
    assert!(out.contains("\nG92 E0\n"), "{out}");

    // Every absolute value after the reset is measured from the new zero,
    // so none of them may jump.
    let after = out.split("\nG92 E0\n").nth(1).expect("the reset is kept");
    let mut position = 0.0;
    for line in after.lines() {
        let parsed = Line::parse(line);
        if !parsed.draws() {
            continue;
        }
        if let Some(e) = word(&parsed, parsed.e) {
            assert!(
                e >= position && e - position <= 2.0,
                "{line} asks for {} mm in one move:\n{out}",
                e - position
            );
            position = e;
        }
    }
}

/// A file sliced to complete individual objects builds each one from the
/// bed up, so it holds several first and last layers rather than one pair.
/// Metering only the file's own leaves every later object's bed layer
/// starved and bricks the top of every object but the last.
#[test]
fn every_object_gets_its_own_first_and_last_layer() {
    let mut source = String::from("; layer_height = 0.2\nM83\n");
    for object in 1..=2 {
        for index in 0..4 {
            source.push_str(&layer(0.2 + f64::from(index) * 0.2));
            source.push_str(";TYPE:Perimeter\n");
            source.push_str(&wall_of(
                2,
                &format!("o{object}L{index}loop"),
                0.0,
                10.0,
                0.5,
            ));
        }
    }
    let out = run(&source, &plain());

    // A column climbs over the two layers above the bed and gives the
    // climb back where it is capped, and it does that once per object
    // rather than once per file.
    let flow = |tag: &str| {
        out.lines()
            .find(|line| line.ends_with(tag))
            .map(|line| e_of(line))
            .unwrap_or_else(|| panic!("{tag} missing from:\n{out}"))
    };
    for object in 1..=2 {
        assert_eq!(
            flow(&format!("o{object}L0loop2")),
            0.5,
            "object {object} bed layer"
        );
        assert_eq!(
            flow(&format!("o{object}L1loop2")),
            0.625,
            "object {object} first climb"
        );
        assert_eq!(
            flow(&format!("o{object}L2loop2")),
            0.625,
            "object {object} second climb"
        );
        assert_eq!(
            flow(&format!("o{object}L3loop2")),
            0.25,
            "object {object} top layer"
        );
    }
}

#[test]
fn g92_resets_the_extrusion_offset() {
    let source = format!(
        "M82\n{};TYPE:Perimeter\nG1 X10 Y0 E1.0\n;TYPE:Solid infill\nG92 E0\nG1 X20 Y0 E1.0\n",
        layer(0.2),
    );
    let config = Config {
        wall_flow: Some(2.0),
        ..Config::default()
    };
    let out = run(&source, &config);
    assert!(out.contains("G1 X20 Y0 E1.0\n"), "{out}");
}

#[test]
fn gcode_without_perimeters_is_unchanged() {
    let source = "M83\nG1 Z0.2\nG1 X1 Y1 E0.1\nM104 S0\n";
    assert_eq!(run(source, &Config::default()), source);
}

#[test]
fn empty_input_produces_empty_output() {
    assert_eq!(run("", &Config::default()), "");
}

#[test]
fn reports_what_it_did() {
    let source = middle_layer(&format!(";TYPE:Perimeter\n{}", wall(2, "loop")));
    let stats = apply(&source, &Config::default()).stats;
    assert_eq!(stats.loops, 10);
    assert_eq!(stats.raised, 3);
    assert_eq!(stats.layers, 5);
    assert_eq!(stats.layer_height, 0.2);
    assert!(stats.layer_height_detected);
}

/// A line that came in comes out exactly once and in its order, whatever was
/// raised: but for the moves that were put in, nothing is dropped or reordered.
#[test]
fn every_line_comes_out_once_in_its_order() {
    let source = middle_layer(&format!(
        ";TYPE:Perimeter\n{};TYPE:Solid infill\nG1 X40 Y0 E0.5\nM106 S255\n",
        wall(3, "loop")
    ));
    let out = run(&source, &plain());
    let command = |line: &str| line.split_whitespace().next().unwrap_or("").to_owned();
    let kept: Vec<String> = out
        .lines()
        .filter(|line| !(line.starts_with("G1 Z") && line.contains(brick_stamp())))
        .filter(|line| !line.ends_with("resume"))
        .map(command)
        .collect();
    let given: Vec<String> = source.lines().map(command).collect();
    assert_eq!(kept, given);
}

/// Running again over a file that has been through once is recognised.
#[test]
fn a_rewritten_file_carries_the_stamp() {
    let source = middle_layer(&format!(";TYPE:Perimeter\n{}", wall(2, "loop")));
    let stamped = |text: &str| {
        let survey = read_survey(text.as_bytes()).expect("reading a slice cannot fail");
        survey.bricked
    };
    assert!(!stamped(&source));
    assert!(stamped(&run(&source, &Config::default())));
}

/// A tail of lines that lay nothing is held back only so far.
#[test]
fn a_long_tail_is_let_through() {
    let mut source = String::from("M83\n");
    for index in 0..200 {
        source.push_str(&format!("M117 {index}\n"));
    }
    assert_eq!(run(&source, &Config::default()), source);
}

/// A wall that gains loops inside keeps the stagger of the ones it had, which
/// count from the wall that shows.
#[test]
fn a_thicker_wall_keeps_the_stagger_of_its_outer_loops() {
    let states = |loops: usize| {
        let source = middle_layer(&format!(";TYPE:Perimeter\n{}", wall(loops, "loop")));
        let states = loop_states(&run(&source, &plain()));
        states.into_iter().map(|(_, raised)| raised).collect::<Vec<bool>>()
    };
    assert_eq!(states(2), [false, true]);
    assert_eq!(states(3), [true, false, true]);
    assert_eq!(states(4), [false, true, false, true]);
    assert_eq!(states(5)[1..], states(4)[..]);
}

/// Every bead of a wall is laid at the height of its loop.
#[test]
fn every_bead_is_laid_at_the_height_of_its_loop() {
    let source = middle_layer(&format!(";TYPE:Perimeter\n{}", wall(3, "loop")));
    let out = run(&source, &plain());
    let mut z = 0.0;
    let mut heights = Vec::new();
    for line in out.lines() {
        let parsed = Line::parse(line);
        if let Some(height) = word(&parsed, parsed.z) {
            z = height;
        }
        if parsed.e.is_some() && parsed.draws() {
            heights.push(z);
        }
    }
    // Twelve beads a layer, of which the fourth layer is the tagged one: the
    // middle loop lies on the plane between two that stand half a layer up.
    let layer = &heights[36..48];
    assert!(layer[..4].iter().all(|z| *z == 0.9), "{layer:?}");
    assert!(layer[4..8].iter().all(|z| *z == 0.8), "{layer:?}");
    assert!(layer[8..].iter().all(|z| *z == 0.9), "{layer:?}");
}

#[test]
fn the_lines_that_are_put_in_are_stamped() {
    let mut out = b"G1 X1 Y2 Z0.300".to_vec();
    write_stamp(&mut out, true);
    write_z_move(&mut out, b"0.200", b"600", false, Some(b"1800"));
    write_z_move(&mut out, b"0.300", b"600", true, None);
    assert_eq!(
        String::from_utf8(out).expect("UTF-8"),
        "G1 X1 Y2 Z0.300 ; bricklayers brick raised\n\
         G1 Z0.200 F600 ; bricklayers brick reset\n\
         G1 F1800 ; bricklayers brick resume\n\
         G1 Z0.300 F600 ; bricklayers brick raised\n"
    );
}

/// Asking for nothing extra meters a wall exactly as it was sliced, at every
/// geometry, and so does asking for it where none is known.
#[test]
fn no_extra_flow_leaves_a_wall_as_sliced() {
    for (height, width) in [(0.2, Some(0.45)), (0.06, Some(0.22)), (0.4, Some(0.85)), (0.2, None)] {
        assert_eq!(automatic_flow(height, width, 0.0), 1.0);
    }
}

/// A flow is never less than what was sliced, nor more than the ceiling.
#[test]
fn a_flow_keeps_between_one_and_its_ceiling() {
    let geometry = Geometry {
        height: double(0.2),
        width: Some(double(0.45)),
        spacing: double(0.4),
        asked: double(3.0),
        ceiling: double(1.9),
        reference: double(1.025),
        sliced: double(1.0),
    };
    assert_eq!(float(derived(&geometry)), 1.9);
    assert_eq!(float(derived(&Geometry { asked: double(0.5), ..geometry })), 1.0);
    assert_eq!(float(derived(&Geometry { asked: double(1.5), ..geometry })), 1.5);
    assert_eq!(float(derived(&Geometry { width: None, ..geometry })), 1.025);
}

/// What is no wall goes out byte for byte, though the walls before it did not.
#[test]
fn infill_after_a_raised_wall_goes_out_as_it_came_in() {
    let infill = "G1 X40 Y0 F9000\nG1 X41 Y1 E0.12345\nG2 X42 Y2 I1 J0 E0.5\n";
    let source = middle_layer(&format!(
        ";TYPE:Perimeter\n{};TYPE:Solid infill\n{infill}",
        wall(2, "loop")
    ));
    let out = run(&source, &Config::default());
    assert!(out.contains("raised"), "{out}");
    assert_eq!(out.matches("G1 X41 Y1 E0.12345\nG2 X42 Y2 I1 J0 E0.5\n").count(), 5);
}
