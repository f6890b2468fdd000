//! What taking in a line comes to.
//!
//! Nothing here is run. What becomes of a line, what is kept of it and which loop
//! it belongs to are stated of the line and of what came before it, and what a
//! pass does is held to that.

use super::pass;
use super::pass::Buffered;
use super::pass::Loop;
use super::pass::Measures;
use super::pass::Route;
use super::pass::State;
use crate::double;
use crate::double::Double;
use crate::feature;
use crate::feature::Feature;
use crate::gcode;
use crate::gcode::Line;
use crate::text;
use vstd::prelude::*;

verus! {

/// What a bare comment says, where a line is one.
pub open spec fn remark(line: Line) -> Option<Seq<u8>> {
    gcode::marker_of(text::bytes(line.raw@))
}

/// The line says nothing of a layer or a region.
pub open spec fn unmarked(line: Line) -> bool {
    remark(line) is None || !feature::changes_layer(remark(line)->0) && feature::marked(
        remark(line)->0,
    ) is None
}

/// The line names a region and no layer.
pub open spec fn names_region(line: Line, region: Feature) -> bool {
    remark(line) is Some && !feature::changes_layer(remark(line)->0) && feature::marked(
        remark(line)->0,
    ) == Some(region)
}

/// The three regions that are walls, and the three that are not.
pub open spec fn not_a_wall(region: Feature) -> bool {
    region == Feature::SparseInfill || region == Feature::SolidInfill || region == Feature::Other
}

/// The marker of a layer goes out as it is, ends whatever region was open and
/// counts one layer more, but for the first of a file.
pub proof fn a_layer_marker_goes_straight_out(
    state: State,
    layer_markers: bool,
    buffered: nat,
    loops: nat,
    line: Line,
    m: Measures,
)
    requires
        remark(line) is Some,
        feature::changes_layer(remark(line)->0),
        state.layer < usize::MAX,
    ensures
        pass::breaks(state, loops, line),
        ({
            let (after, route) = pass::routed(state, layer_markers, buffered, loops, line, m);
            &&& route == Route::Push
            &&& after.feature == Feature::Other
            &&& after.started
            &&& after.layer == state.layer + if state.started {
                1int
            } else {
                0
            }
            &&& after == (State {
                feature: after.feature,
                started: after.started,
                layer: after.layer,
                ..state
            })
        }),
{
}

/// Everything in a wall is held back, in whatever kind of wall it is, however much
/// is held back already.
pub proof fn a_wall_is_held_back(
    state: State,
    layer_markers: bool,
    buffered: nat,
    loops: nat,
    line: Line,
    m: Measures,
)
    requires
        unmarked(line),
        state.feature == Feature::ExternalPerimeter || state.feature == Feature::InternalPerimeter
            || state.feature == Feature::Overhang,
    ensures
        ({
            let (after, route) = pass::routed(state, layer_markers, buffered, loops, line, m);
            &&& route == Route::Hold
            &&& after.feature == state.feature
            &&& buffered == 0 ==> after.entry == state.at
            &&& buffered > 0 ==> after.entry == state.entry
        }),
{
}

/// Outside a wall a line is let through where it lays a bead, where a loop is
/// held back, or where sixty-four lines are; any other might still lead to a wall.
pub proof fn outside_a_wall_a_bead_goes_through(
    state: State,
    layer_markers: bool,
    buffered: nat,
    loops: nat,
    line: Line,
    m: Measures,
)
    requires
        unmarked(line),
        not_a_wall(state.feature),
    ensures
        ({
            let (after, route) = pass::routed(state, layer_markers, buffered, loops, line, m);
            let lays = line.e is Some && (line.x is Some || line.y is Some);
            &&& lays || loops > 0 || buffered >= 64 ==> route == Route::Through && after.entry
                == state.entry
            &&& !lays && loops == 0 && buffered < 64 ==> route == Route::Hold
            &&& !lays && loops == 0 && 0 < buffered < 64 ==> after.entry == state.entry
            &&& !lays && loops == 0 && buffered == 0 ==> after.entry == state.at
            &&& after.feature == state.feature
        }),
{
}

/// A region marker opens its region. Between two walls it stays with them, and
/// anywhere else it is like a line that lays nothing.
pub proof fn a_region_marker_opens_its_region(
    state: State,
    layer_markers: bool,
    buffered: nat,
    loops: nat,
    line: Line,
    region: Feature,
    m: Measures,
)
    requires
        names_region(line, region),
        line.e is None,
    ensures
        ({
            let (after, route) = pass::routed(state, layer_markers, buffered, loops, line, m);
            let walls = !not_a_wall(state.feature) && !not_a_wall(region);
            &&& after.feature == region
            &&& after.layer == state.layer
            &&& after.at == state.at
            &&& walls && buffered > 0 ==> route == Route::Hold
            &&& !walls && (loops > 0 || buffered >= 64) ==> route == Route::Through
            &&& loops == 0 && buffered < 64 ==> route == Route::Hold
        }),
{
}

/// A region is written before a layer marker always; before a marker that leads
/// from a wall to a wall never; and before any other marker and a `G92` where it
/// holds a loop. No other line has it written.
pub proof fn a_region_is_written_before_what_ends_it(
    state: State,
    loops: nat,
    line: Line,
    region: Feature,
)
    ensures
        names_region(line, region) && not_a_wall(region) ==> pass::breaks(state, loops, line) == (
        loops > 0),
        names_region(line, region) && not_a_wall(state.feature) ==> pass::breaks(
            state,
            loops,
            line,
        ) == (loops > 0),
        names_region(line, region) && !not_a_wall(region) && !not_a_wall(state.feature)
            ==> !pass::breaks(state, loops, line),
        unmarked(line) && line.code is SetPosition ==> pass::breaks(state, loops, line) == (loops
            > 0),
        unmarked(line) && !(line.code is SetPosition) ==> !pass::breaks(state, loops, line),
{
}

/// A move or an arc leaves the nozzle where it names, and where it was on the
/// axes it does not name; other lines leave it where it is. A height counts as the
/// layer's only where a straight move names it.
pub proof fn a_move_leaves_the_nozzle_where_it_names(
    state: State,
    layer_markers: bool,
    buffered: nat,
    loops: nat,
    line: Line,
    m: Measures,
)
    requires
        unmarked(line),
    ensures
        ({
            let after = pass::routed(state, layer_markers, buffered, loops, line, m).0;
            let goes = line.code is Move || line.code is Arc;
            &&& goes && line.x is Some ==> after.at.0 == m.x
            &&& !goes || line.x is None ==> after.at.0 == state.at.0
            &&& goes && line.y is Some ==> after.at.1 == m.y
            &&& !goes || line.y is None ==> after.at.1 == state.at.1
            &&& line.code is Move && line.z is Some ==> after.layer_z == m.z
            &&& !(line.code is Move) || line.z is None ==> after.layer_z == state.layer_z
        }),
{
}

/// In a file without layer markers a straight move to above the last height
/// begins a layer; in one with markers none does.
pub proof fn a_rise_begins_a_layer_in_a_file_without_markers(
    state: State,
    buffered: nat,
    loops: nat,
    line: Line,
    m: Measures,
)
    requires
        unmarked(line),
        state.layer < usize::MAX,
        line.code is Move,
        line.z is Some,
        !double::no_number(m.z.bits),
        !double::no_number(state.layer_z.bits),
    ensures
        ({
            let bare = pass::routed(state, false, buffered, loops, line, m).0;
            let marked = pass::routed(state, true, buffered, loops, line, m).0;
            let rises = double::worth(m.z.bits) > double::worth(state.layer_z.bits);
            &&& rises ==> bare.started && bare.layer == state.layer + if state.started {
                1int
            } else {
                0
            }
            &&& !rises ==> bare.started == state.started && bare.layer == state.layer
            &&& marked.started == state.started
            &&& marked.layer == state.layer
        }),
{
    double::doubles_compare_as_what_they_are_worth(state.layer_z, m.z);
}

/// What a line does to the extruder before it asks for filament: `M82` and `M83`
/// set how distances are read, and a `G92` with an E says where the input stands.
/// The output is not touched.
pub proof fn a_command_tells_the_extruder(
    state: State,
    layer_markers: bool,
    buffered: nat,
    loops: nat,
    line: Line,
    m: Measures,
)
    requires
        unmarked(line),
    ensures
        ({
            let after = pass::routed(state, layer_markers, buffered, loops, line, m).0.extruder;
            let before = state.extruder;
            &&& line.code is AbsoluteE ==> after.absolute && after.input == before.input
            &&& line.code is RelativeE ==> !after.absolute && after.input == before.input
            &&& line.code is SetPosition && line.e is Some ==> after.input == m.e && after.absolute
                == before.absolute
            &&& line.code is SetPosition && line.e is None ==> after == before
            &&& line.code is Move || line.code is Arc || line.code is Other ==> after == before
            &&& after.output == before.output
        }),
{
}

/// A line lays a bead where it is a move or an arc that names both axes of the
/// plane and asks for filament: with distances read as they are, its E above zero,
/// and otherwise how far that is past the last.
pub proof fn a_bead_names_a_place_and_asks_for_filament(state: State, line: Line, m: Measures)
    requires
        !double::no_number(m.e.bits),
        !double::no_number(m.fed.bits),
    ensures
        ({
            let kept = pass::record(state, line, m);
            let fed = if state.extruder.absolute {
                m.fed
            } else {
                m.e
            };
            let goes = line.code is Move || line.code is Arc;
            &&& kept.extrudes == (goes && line.x is Some && line.y is Some && line.e is Some
                && double::worth(fed.bits) > 0)
            &&& goes && line.e is Some ==> kept.delta == Some(fed)
            &&& !goes || line.e is None ==> kept.delta is None
            &&& pass::held(state, line, m).extruder.input == if goes && line.e is Some
                && state.extruder.absolute {
                m.e
            } else {
                state.extruder.input
            }
            &&& pass::held(state, line, m).extruder.absolute == state.extruder.absolute
            &&& pass::held(state, line, m).extruder.output == state.extruder.output
        }),
{
    double::doubles_compare_as_what_they_are_worth(Double { bits: 0 }, m.e);
    double::doubles_compare_as_what_they_are_worth(Double { bits: 0 }, m.fed);
    assert(double::worth(0) == 0);
}

/// A straight move that goes anywhere decides where the nozzle is next. It can
/// take a height along where it neither feeds nor says anything.
pub proof fn a_plain_move_can_take_a_height_along(state: State, line: Line, m: Measures)
    ensures
        ({
            let kept = pass::record(state, line, m);
            &&& kept.positions == (line.code is Move && (line.has_xy || line.z is Some))
            &&& kept.carries ==> kept.positions && line.e is None && line.comment_at is None
            &&& kept.positions && line.e is None && line.comment_at is None ==> kept.carries
            &&& kept.resets_origin == line.code is SetPosition
            &&& kept.z is Some == (line.code is Move && line.z is Some)
            &&& kept.z is Some ==> kept.z->0 == m.z
            &&& kept.f is Some == line.f is Some
            &&& kept.f is Some ==> kept.f->0 == m.f
            &&& kept.e is Some == line.e is Some
            &&& kept.e is Some ==> kept.e->0 == m.e && kept.e_span == Some(
                (line.e->0.start, line.e->0.end),
            )
            &&& kept.xy is Some == (line.x is Some && line.y is Some)
            &&& kept.xy is Some ==> kept.xy->0 == (m.x, m.y)
            &&& kept.at == state.at
            &&& kept.arc is Some == (line.code is Arc && line.i is Some && line.j is Some)
            &&& kept.arc is Some ==> kept.arc->0.i == m.i && kept.arc->0.j == m.j
                && kept.arc->0.clockwise == line.clockwise
        }),
{
}

/// The lines from `from` to `to` lay nothing.
pub open spec fn lays_nothing(buffer: Seq<Buffered>, from: int, to: int) -> bool {
    forall|i: int| from <= i < to ==> !(#[trigger] buffer[i]).extrudes
}

proof fn lemma_lead(buffer: Seq<Buffered>, floor: int, body: int)
    requires
        0 <= floor <= body < buffer.len(),
    ensures
        ({
            let lead = pass::lead_of(buffer, floor, body);
            &&& floor <= lead <= body
            &&& lays_nothing(buffer, lead, body)
            &&& lead == floor || buffer[lead - 1].extrudes
        }),
    decreases body - floor,
{
    if body > floor && !buffer[body - 1].extrudes {
        lemma_lead(buffer, floor, body - 1);
    }
}

/// A bead that a travel reached, and the first of a region, opens a loop: its body
/// starts at that bead and its lead right behind the bead before it. The region it
/// was laid in says which wall it is.
pub proof fn a_bead_behind_a_travel_opens_a_loop(
    loops: Seq<Loop>,
    buffer: Seq<Buffered>,
    travelled: bool,
    region: Feature,
)
    requires
        loops.len() == 0 || travelled,
        0 < buffer.len() <= usize::MAX,
        loops.len() > 0 ==> loops.last().body + 1 < buffer.len(),
    ensures
        ({
            let after = pass::looped(loops, buffer, travelled, region);
            let last = after.last();
            &&& after.len() == loops.len() + 1
            &&& after.drop_last() == loops
            &&& last.body == buffer.len() - 1
            &&& last.lead <= last.body
            &&& lays_nothing(buffer, last.lead as int, last.body as int)
            &&& last.lead == 0 || buffer[last.lead - 1].extrudes || loops.len() > 0 && last.lead
                == loops.last().body + 1
            &&& last.external == (region == Feature::ExternalPerimeter)
            &&& last.hidden == (region == Feature::InternalPerimeter)
            &&& !last.raised && !last.capped && last.steps == 0
        }),
{
    let floor: int = if loops.len() == 0 {
        0
    } else {
        loops.last().body + 1
    };
    lemma_lead(buffer, floor, buffer.len() - 1);
    let after = pass::looped(loops, buffer, travelled, region);
    assert(after.drop_last() =~= loops);
}

/// Any other bead belongs to the loop before it, which is a visible wall once any
/// bead of it was, and a hidden one likewise.
pub proof fn a_bead_without_a_travel_joins_its_loop(
    loops: Seq<Loop>,
    buffer: Seq<Buffered>,
    region: Feature,
)
    requires
        loops.len() > 0,
    ensures
        ({
            let after = pass::looped(loops, buffer, false, region);
            let (was, now) = (loops.last(), after.last());
            &&& after.len() == loops.len()
            &&& after.drop_last() == loops.drop_last()
            &&& now.external == (was.external || region == Feature::ExternalPerimeter)
            &&& now.hidden == (was.hidden || region == Feature::InternalPerimeter)
            &&& now == (Loop { external: now.external, hidden: now.hidden, ..was })
        }),
{
    let after = pass::looped(loops, buffer, false, region);
    assert(after.drop_last() =~= loops.drop_last());
}

/// The nozzle has travelled once a straight move in the plane has laid nothing,
/// and until a bead is laid.
pub proof fn a_travel_lasts_until_a_bead(state: State, line: Line, m: Measures)
    ensures
        ({
            let lays = pass::record(state, line, m).extrudes;
            let after = pass::held(state, line, m).travelled;
            &&& lays ==> !after
            &&& !lays && line.code is Move && line.has_xy ==> after
            &&& !lays && !(line.code is Move && line.has_xy) ==> after == state.travelled
        }),
{
}

/// A region's loops change only where a bead is laid.
pub proof fn only_a_bead_changes_the_loops(
    loops: Seq<Loop>,
    buffer: Seq<Buffered>,
    state: State,
    line: Line,
    m: Measures,
)
    ensures
        !pass::record(state, line, m).extrudes ==> pass::held_loops(loops, buffer, state, line, m)
            == loops,
        pass::record(state, line, m).extrudes ==> pass::held_loops(loops, buffer, state, line, m)
            == pass::looped(
            loops,
            buffer.push(pass::record(state, line, m)),
            state.travelled,
            state.feature,
        ),
{
}

} // verus!
