//! What a survey says of a file.
//!
//! Nothing here is run. The pass in [`crate::scan`] is a step from line to line;
//! this states what the steps come to, one thing the survey is asked at a time.

use crate::double;
use crate::double::Double;
use crate::feature;
use crate::feature::Feature;
use crate::footprint;
use crate::gcode;
use crate::gcode::Code;
use crate::gcode::Line;
use crate::grammar;
use crate::scan;
use crate::scan::Height;
use crate::scan::Measures;
use crate::scan::Note;
use crate::scan::Progress;
use crate::slicer;
use crate::text;
use crate::wording;
use vstd::prelude::*;
use vstd::string::*;

verus! {

/// The line carries a command rather than nothing but a comment.
pub open spec fn commands(line: Line) -> bool {
    gcode::marker_of(text::bytes(line.raw@)) is None
}

/// What a line that is nothing but a comment tells.
pub open spec fn tells(line: Line, note: Note) -> bool {
    gcode::marker_of(text::bytes(line.raw@)) matches Some(marker) && scan::note_of(marker) == note
}

/// A move or an arc asks for filament and says where it goes in both axes of the
/// plane.
pub open spec fn lays_a_bead(p: Progress, line: Line, m: Measures) -> bool {
    &&& commands(line)
    &&& line.code == Code::Move || line.code == Code::Arc
    &&& line.e is Some
    &&& Double { bits: 0 }.below(
        if p.extruder.absolute {
            m.fed
        } else {
            m.e
        },
    )
    &&& line.x is Some
    &&& line.y is Some
}

/// The places of the grid a path is at, as cells.
pub open spec fn crosses(path: Seq<(i32, i32)>, cell: u32) -> bool {
    exists|i: int|
        0 <= i < path.len() && cell == footprint::cell_key(
            (#[trigger] path[i]).0 as int,
            path[i].1 as int,
        )
}

/// The cells a path passes through are those of its places, and no others.
pub proof fn a_path_passes_through_the_cells_of_its_places(path: Seq<(i32, i32)>, cell: u32)
    ensures
        footprint::visited(path, None).contains(cell) == crosses(path, cell),
    decreases path.len(),
{
    let all = footprint::visited(path, None);
    if path.len() > 0 {
        let less = path.drop_last();
        let before = footprint::visited(less, None);
        let last = footprint::cell_key(path.last().0 as int, path.last().1 as int);
        a_path_passes_through_the_cells_of_its_places(less, cell);
        if crosses(less, cell) {
            let i = choose|i: int|
                0 <= i < less.len() && cell == footprint::cell_key(
                    (#[trigger] less[i]).0 as int,
                    less[i].1 as int,
                );
            assert(path[i] == less[i]);
            let j = choose|j: int| 0 <= j < before.len() && before[j] == cell;
            assert(all[j] == cell);
        }
        if cell == last {
            assert(path[path.len() - 1] == path.last());
            assert(all[all.len() - 1] == cell);
        }
        if crosses(path, cell) && cell != last {
            let i = choose|i: int|
                0 <= i < path.len() && cell == footprint::cell_key(
                    (#[trigger] path[i]).0 as int,
                    path[i].1 as int,
                );
            assert(less[i] == path[i]);
        }
        if all.contains(cell) && cell != last {
            let j = choose|j: int| 0 <= j < all.len() && all[j] == cell;
            assert(before[j] == cell);
        }
    } else {
        assert(!all.contains(cell));
    }
}

/// Only what is laid inside an internal perimeter is traced: a command read in
/// any other region leaves the cells of the open layer, and the last layer that
/// held such a wall, as they were.
pub proof fn only_internal_walls_are_traced(p: Progress, line: Line, m: Measures)
    requires
        commands(line),
        p.feature != Feature::InternalPerimeter,
    ensures
        scan::fed(p, line, m).here == p.here,
        scan::fed(p, line, m).last_wall_layer == p.last_wall_layer,
        scan::fed(p, line, m).arc_extrusions == p.arc_extrusions,
{
}

/// A bead laid inside an internal perimeter of an open layer adds exactly the
/// cells its path passes through, and makes that layer the last that holds a
/// wall.
pub proof fn a_bead_of_an_internal_wall_is_traced(p: Progress, line: Line, m: Measures, cell: u32)
    requires
        p.feature == Feature::InternalPerimeter,
        p.open_layer is Some,
        lays_a_bead(p, line, m),
    ensures
        scan::fed(p, line, m).here.contains(cell) == (p.here.contains(cell) || crosses(
            m.path@,
            cell,
        )),
        scan::fed(p, line, m).last_wall_layer == p.open_layer,
{
    a_path_passes_through_the_cells_of_its_places(m.path@, cell);
}

/// A command that lays no bead, and any command before the first layer, traces
/// nothing.
pub proof fn nothing_but_a_bead_is_traced(p: Progress, line: Line, m: Measures)
    requires
        commands(line),
        !lays_a_bead(p, line, m) || p.open_layer is None,
    ensures
        scan::fed(p, line, m).here == p.here,
{
}

/// A layer's answer holds a cell.
pub open spec fn answers(cells: Seq<Set<u32>>, layer: int, cell: u32) -> bool {
    0 <= layer < cells.len() && cells[layer].contains(cell)
}

/// The layers of a pass are read in order, so nothing is known yet of the one
/// that is open, nor of what stands on the one below it.
pub open spec fn in_order(p: Progress) -> bool {
    &&& p.open_layer matches Some(open) ==> p.unsupported.len() <= open
    &&& p.below_layer matches Some(below) ==> p.uncovered.len() <= below
}

proof fn lemma_kept(into: Seq<Set<u32>>, at: int, cells: Set<u32>, layer: int, cell: u32)
    requires
        into.len() <= at,
        0 <= layer,
    ensures
        answers(scan::kept(into, at, cells), layer, cell) == if layer == at {
            cells.contains(cell)
        } else {
            answers(into, layer, cell)
        },
{
    if cells == Set::<u32>::empty() {
        assert(!cells.contains(cell));
    }
}

/// When a layer marker comes, the layer before it is settled against the one
/// under that: a wall of the lower layer is uncovered where the upper has none,
/// and one of the upper is unsupported where the lower has none. What is known
/// of other layers stays.
pub proof fn a_layer_is_settled_against_the_one_below(
    p: Progress,
    line: Line,
    m: Measures,
    layer: int,
    cell: u32,
)
    requires
        tells(line, Note::Layer),
        in_order(p),
        p.open_layer is Some,
        0 <= layer,
    ensures
        ({
            let after = scan::fed(p, line, m);
            let open = p.open_layer->0;
            &&& p.below_layer is Some && layer == p.below_layer->0 ==> answers(
                after.uncovered,
                layer,
                cell,
            ) == (p.below.contains(cell) && !p.here.contains(cell))
            &&& p.below_layer is None || layer != p.below_layer->0 ==> answers(
                after.uncovered,
                layer,
                cell,
            ) == answers(p.uncovered, layer, cell)
            &&& layer == open ==> answers(after.unsupported, layer, cell) == (p.here.contains(cell)
                && !p.below.contains(cell))
            &&& layer != open ==> answers(after.unsupported, layer, cell) == answers(
                p.unsupported,
                layer,
                cell,
            )
            &&& after.below == p.here
            &&& after.below_layer == Some(open)
            &&& after.here == Set::<u32>::empty()
        }),
{
    let open = p.open_layer->0 as int;
    lemma_kept(p.unsupported, open, p.here.difference(p.below), layer, cell);
    if p.below_layer is Some {
        let below = p.below_layer->0 as int;
        lemma_kept(p.uncovered, below, p.below.difference(p.here), layer, cell);
    }
}

/// A layer marker opens the next layer, in no region, and counts it.
pub proof fn a_layer_marker_opens_the_next_layer(p: Progress, line: Line, m: Measures)
    requires
        tells(line, Note::Layer),
        p.layers <= usize::MAX,
    ensures
        ({
            let after = scan::fed(p, line, m);
            &&& after.layers == p.layers + 1
            &&& after.open_layer is Some
            &&& after.open_layer->0 == p.layers
            &&& after.feature == Feature::Other
            &&& after.layer_floor is None
            &&& after.wall_top_at_open == p.last_wall_layer
        }),
{
}

/// A layer is as high as it rose above the one before it. The first layer of the
/// file, and one that lies lower than the layer before it, stand on the bed and
/// are as high as they lie.
pub proof fn a_layers_height_is_how_far_it_rose(p: Progress, line: Line, m: Measures)
    requires
        tells(line, Note::Layer),
        p.open_layer is Some,
        p.layer_floor is Some,
        p.layer_heights.len() <= p.open_layer->0,
    ensures
        ({
            let after = scan::fed(p, line, m);
            let open = p.open_layer->0 as int;
            let floor = p.layer_floor->0;
            let returned = p.previous_floor is Some && floor.below(p.previous_floor->0);
            &&& after.layer_heights.len() == open + 1
            &&& after.layer_heights.take(p.layer_heights.len() as int) == p.layer_heights
            &&& after.layer_heights[open] == if p.previous_floor is None || returned {
                floor
            } else {
                m.rise
            }
            &&& after.previous_floor == Some(floor)
            &&& returned ==> after.object_starts == p.object_starts.push(open as usize)
            &&& !returned ==> after.object_starts == p.object_starts && after.object_tops
                == p.object_tops
        }),
{
    let after = scan::fed(p, line, m);
    assert(after.layer_heights.take(p.layer_heights.len() as int) =~= p.layer_heights);
}

/// When another object starts, the one before it topped out at the last layer
/// that held a wall when the new one opened, and without any at the layer before.
pub proof fn an_object_tops_out_at_its_last_wall(p: Progress, line: Line, m: Measures)
    requires
        tells(line, Note::Layer),
        p.open_layer is Some,
        p.open_layer->0 > 0,
        p.layer_floor is Some,
        p.previous_floor is Some,
        p.layer_floor->0.below(p.previous_floor->0),
    ensures
        ({
            let after = scan::fed(p, line, m);
            &&& after.object_tops.len() == p.object_tops.len() + 1
            &&& after.object_tops.drop_last() == p.object_tops
            &&& p.wall_top_at_open matches Some(top) ==> after.object_tops.last() == top
            &&& p.wall_top_at_open is None ==> after.object_tops.last() == p.open_layer->0 - 1
        }),
{
    let after = scan::fed(p, line, m);
    assert(after.object_tops.drop_last() =~= p.object_tops);
}

/// A layer lies as low as the lowest height it names.
pub proof fn a_layer_lies_at_the_lowest_height_it_names(p: Progress, line: Line, m: Measures)
    requires
        commands(line),
        m.z.number(),
        p.layer_floor is Some ==> p.layer_floor->0.number(),
    ensures
        ({
            let after = scan::fed(p, line, m);
            let names = line.code == Code::Move && line.z is Some;
            &&& !names ==> after.layer_floor == p.layer_floor && after.current_z == p.current_z
            &&& names ==> {
                &&& after.layer_floor is Some
                &&& !m.z.below(after.layer_floor->0)
                &&& after.layer_floor->0 == m.z || Some(after.layer_floor->0) == p.layer_floor
                &&& p.layer_floor is Some ==> !p.layer_floor->0.below(after.layer_floor->0)
                &&& after.current_z.same(m.z) || after.current_z == m.z
            }
        }),
{
}

/// The rate a machine's Z axis is known to take is the slowest of the moves that
/// drive it alone once a layer is open.
pub proof fn the_slowest_rate_of_the_axis_alone_counts(p: Progress, line: Line, m: Measures)
    requires
        commands(line),
    ensures
        ({
            let after = scan::fed(p, line, m);
            let alone = line.code == Code::Move && line.z is Some && !line.has_xy && line.f is Some
                && p.open_layer is Some && Double { bits: 0 }.below(m.f);
            &&& !alone ==> after.z_feedrate == p.z_feedrate
            &&& alone ==> {
                &&& after.z_feedrate is Some
                &&& !m.f.below(after.z_feedrate->0)
                &&& after.z_feedrate->0 == m.f || after.z_feedrate == p.z_feedrate
                &&& p.z_feedrate is Some && p.z_feedrate->0.number() ==> !p.z_feedrate->0.below(
                    after.z_feedrate->0,
                )
            }
        }),
{
}

/// How often a Z step was seen.
pub open spec fn seen(steps: Seq<(i64, usize)>, step: i64) -> int
    decreases steps.len(),
{
    if steps.len() == 0 {
        0
    } else {
        seen(steps.drop_last(), step) + if steps.last().0 == step {
            steps.last().1 as int
        } else {
            0
        }
    }
}

proof fn lemma_seen_update(steps: Seq<(i64, usize)>, at: int, count: usize, step: i64)
    requires
        0 <= at < steps.len(),
    ensures
        seen(steps.update(at, (steps[at].0, count)), step) == seen(steps, step) + if steps[at].0
            == step {
            count - steps[at].1
        } else {
            0
        },
    decreases steps.len(),
{
    let after = steps.update(at, (steps[at].0, count));
    if at == steps.len() - 1 {
        assert(after.drop_last() =~= steps.drop_last());
    } else {
        lemma_seen_update(steps.drop_last(), at, count, step);
        assert(after.drop_last() =~= steps.drop_last().update(at, (steps[at].0, count)));
    }
}

proof fn lemma_counted(steps: Seq<(i64, usize)>, step: i64, other: i64)
    requires
        forall|i: int| 0 <= i < steps.len() ==> (#[trigger] steps[i]).1 < usize::MAX,
    ensures
        seen(scan::counted(steps, step), other) == seen(steps, other) + if step == other {
            1int
        } else {
            0
        },
{
    let at = scan::step_at(steps, step, 0);
    lemma_step_at(steps, step, 0);
    if at < steps.len() {
        lemma_seen_update(steps, at, (steps[at].1 + 1) as usize, other);
    } else {
        assert(steps.push((step, 1usize)).drop_last() =~= steps);
    }
}

proof fn lemma_step_at(steps: Seq<(i64, usize)>, step: i64, from: int)
    requires
        0 <= from <= steps.len(),
    ensures
        from <= scan::step_at(steps, step, from) <= steps.len(),
        scan::step_at(steps, step, from) < steps.len() ==> steps[scan::step_at(
            steps,
            step,
            from,
        )].0 == step,
    decreases steps.len() - from,
{
    if from < steps.len() && steps[from].0 != step {
        lemma_step_at(steps, step, from + 1);
    }
}

/// A linear move that changes the height by more than a hundredth of a
/// millimetre upwards is counted once under its step, and nothing else is
/// counted.
pub proof fn a_rise_is_counted_under_its_step(p: Progress, line: Line, m: Measures, step: i64)
    requires
        commands(line),
        forall|i: int| 0 <= i < p.z_steps.len() ==> (#[trigger] p.z_steps[i]).1 < usize::MAX,
    ensures
        ({
            let rises = line.code == Code::Move && line.z is Some && !m.z.same(p.current_z)
                && m.step > 10;
            seen(scan::fed(p, line, m).z_steps, step) == seen(p.z_steps, step) + if rises && step
                == m.step {
                1int
            } else {
                0
            }
        }),
{
    lemma_counted(p.z_steps, m.step, step);
}

/// The height a file is taken to have is the one it states, where that is one;
/// otherwise the step seen most often, the later one of two; and otherwise none.
pub proof fn the_commonest_step_stands_in_for_a_height(p: Progress)
    ensures
        ({
            let stated = p.declared_height is Some && p.declared_height->0.finite() && Double {
                bits: 0,
            }.below(p.declared_height->0);
            &&& stated ==> scan::height_of(p) == Height::Declared(p.declared_height->0)
            &&& !stated && p.z_steps.len() == 0 ==> scan::height_of(p) == Height::Fallback
            &&& !stated && p.z_steps.len() > 0 ==> exists|k: int|
                {
                    &&& 0 <= k < p.z_steps.len()
                    &&& scan::height_of(p) == Height::Measured((#[trigger] p.z_steps[k]).0)
                    &&& forall|i: int|
                        0 <= i < p.z_steps.len() ==> (#[trigger] p.z_steps[i]).1
                            <= p.z_steps[k].1
                    &&& forall|i: int|
                        k < i < p.z_steps.len() ==> (#[trigger] p.z_steps[i]).1 < p.z_steps[k].1
                }
        }),
{
    if p.z_steps.len() > 0 {
        let k = lemma_commonest(p.z_steps);
        assert(p.z_steps[k].0 == (scan::commonest(p.z_steps)->0).0);
    }
}

proof fn lemma_commonest(steps: Seq<(i64, usize)>) -> (k: int)
    requires
        steps.len() > 0,
    ensures
        0 <= k < steps.len(),
        scan::commonest(steps) == Some(steps[k]),
        forall|i: int| 0 <= i < steps.len() ==> (#[trigger] steps[i]).1 <= steps[k].1,
        forall|i: int| k < i < steps.len() ==> (#[trigger] steps[i]).1 < steps[k].1,
    decreases steps.len(),
{
    let less = steps.drop_last();
    let last = steps.len() - 1;
    if less.len() == 0 {
        assert(scan::commonest(less) is None);
        last
    } else {
        let k = lemma_commonest(less);
        assert forall|i: int| 0 <= i < less.len() implies (#[trigger] steps[i]) == less[i] by {}
        if steps[last].1 >= less[k].1 {
            last
        } else {
            k
        }
    }
}

/// The printed layers are those that are marked; a file without a marker has as
/// many as its counted rises, and no file has fewer than one.
pub proof fn layers_are_the_marked_ones(p: Progress)
    ensures
        p.layers > 0 ==> scan::layers_of(p) == p.layers,
        scan::layers_of(p) >= 1,
        p.layers == 0 && p.z_steps.len() == 0 ==> scan::layers_of(p) == 1,
{
}

/// What a setting says is taken from where it is stated first, and a setting
/// changes nothing but what it states.
pub proof fn a_setting_counts_where_it_is_stated_first(p: Progress, line: Line, m: Measures)
    requires
        gcode::marker_of(text::bytes(line.raw@)) is Some,
    ensures
        ({
            let after = scan::fed(p, line, m);
            let stated = scan::setting_value(gcode::marker_of(text::bytes(line.raw@))->0);
            &&& p.declared_height is Some ==> after.declared_height == p.declared_height
            &&& p.wall_order is Some ==> after.wall_order == p.wall_order
            &&& p.skin_width is Some ==> after.skin_width == p.skin_width
            &&& p.wall_width is Some ==> after.wall_width == p.wall_width
            &&& p.nozzle is Some ==> after.nozzle == p.nozzle
            &&& p.skin_width is None ==> after.skin_width == if tells(line, Note::Skin) {
                Some(stated)
            } else {
                None
            }
            &&& p.wall_width is None ==> after.wall_width == if tells(line, Note::Wall) {
                Some(stated)
            } else {
                None
            }
            &&& p.nozzle is None ==> after.nozzle == if tells(line, Note::Nozzle) {
                Some(stated)
            } else {
                None
            }
            &&& p.declared_height is None ==> after.declared_height == if tells(
                line,
                Note::Height,
            ) {
                m.height
            } else {
                None
            }
            &&& !tells(line, Note::Layer) ==> after.layers == p.layers && after.open_layer
                == p.open_layer && after.here == p.here && after.layer_floor == p.layer_floor
        }),
{
}

/// Which of the settings a name is, where it is one.
pub open spec fn setting_named(name: Seq<u8>, value: Seq<u8>) -> Note {
    if wording::is_word(name, "layer_height"@) {
        Note::Height
    } else if wording::is_word(name, "wall_sequence"@) || wording::is_word(
        name,
        "external_perimeters_first"@,
    ) {
        Note::Order(slicer::order(value))
    } else if wording::is_word(name, "outer_wall_line_width"@) || wording::is_word(
        name,
        "external_perimeter_extrusion_width"@,
    ) {
        Note::Skin
    } else if wording::is_word(name, "inner_wall_line_width"@) || wording::is_word(
        name,
        "perimeter_extrusion_width"@,
    ) {
        Note::Wall
    } else if wording::is_word(name, "nozzle_diameter"@) {
        Note::Nozzle
    } else {
        Note::Nothing
    }
}

proof fn lemma_is_layer_height(name: Seq<u8>)
    ensures
        wording::is_word(name, "layer_height"@) == text::same_fold(
            name,
            text::bytes("layer_height"@),
        ),
{
    reveal_strlit("layer_height");
    wording::a_word_is_itself_in_any_case(name, "layer_height"@);
}

proof fn lemma_is_wall_sequence(name: Seq<u8>)
    ensures
        wording::is_word(name, "wall_sequence"@) == text::same_fold(
            name,
            text::bytes("wall_sequence"@),
        ),
{
    reveal_strlit("wall_sequence");
    wording::a_word_is_itself_in_any_case(name, "wall_sequence"@);
}

proof fn lemma_is_external_perimeters_first(name: Seq<u8>)
    ensures
        wording::is_word(name, "external_perimeters_first"@) == text::same_fold(
            name,
            text::bytes("external_perimeters_first"@),
        ),
{
    reveal_strlit("external_perimeters_first");
    wording::a_word_is_itself_in_any_case(name, "external_perimeters_first"@);
}

proof fn lemma_is_outer_wall_line_width(name: Seq<u8>)
    ensures
        wording::is_word(name, "outer_wall_line_width"@) == text::same_fold(
            name,
            text::bytes("outer_wall_line_width"@),
        ),
{
    reveal_strlit("outer_wall_line_width");
    wording::a_word_is_itself_in_any_case(name, "outer_wall_line_width"@);
}

proof fn lemma_is_external_perimeter_extrusion_width(name: Seq<u8>)
    ensures
        wording::is_word(name, "external_perimeter_extrusion_width"@) == text::same_fold(
            name,
            text::bytes("external_perimeter_extrusion_width"@),
        ),
{
    reveal_strlit("external_perimeter_extrusion_width");
    wording::a_word_is_itself_in_any_case(name, "external_perimeter_extrusion_width"@);
}

proof fn lemma_is_inner_wall_line_width(name: Seq<u8>)
    ensures
        wording::is_word(name, "inner_wall_line_width"@) == text::same_fold(
            name,
            text::bytes("inner_wall_line_width"@),
        ),
{
    reveal_strlit("inner_wall_line_width");
    wording::a_word_is_itself_in_any_case(name, "inner_wall_line_width"@);
}

proof fn lemma_is_perimeter_extrusion_width(name: Seq<u8>)
    ensures
        wording::is_word(name, "perimeter_extrusion_width"@) == text::same_fold(
            name,
            text::bytes("perimeter_extrusion_width"@),
        ),
{
    reveal_strlit("perimeter_extrusion_width");
    wording::a_word_is_itself_in_any_case(name, "perimeter_extrusion_width"@);
}

proof fn lemma_is_nozzle_diameter(name: Seq<u8>)
    ensures
        wording::is_word(name, "nozzle_diameter"@) == text::same_fold(
            name,
            text::bytes("nozzle_diameter"@),
        ),
{
    reveal_strlit("nozzle_diameter");
    wording::a_word_is_itself_in_any_case(name, "nozzle_diameter"@);
}

/// Which of the settings a name is, as it is compared.
spec fn setting_of(name: Seq<u8>, value: Seq<u8>) -> Note {
    let is = |word: &str| text::same_fold(name, text::bytes(word@));
    if is("layer_height") {
        Note::Height
    } else if is("wall_sequence") || is("external_perimeters_first") {
        Note::Order(slicer::order(value))
    } else if is("external_perimeter_extrusion_width") || is("outer_wall_line_width") {
        Note::Skin
    } else if is("perimeter_extrusion_width") || is("inner_wall_line_width") {
        Note::Wall
    } else if is("nozzle_diameter") {
        Note::Nozzle
    } else {
        Note::Nothing
    }
}

proof fn lemma_setting_named(name: Seq<u8>, value: Seq<u8>)
    ensures
        setting_named(name, value) == setting_of(name, value),
{
    lemma_is_layer_height(name);
    lemma_is_wall_sequence(name);
    lemma_is_external_perimeters_first(name);
    lemma_is_outer_wall_line_width(name);
    lemma_is_external_perimeter_extrusion_width(name);
    lemma_is_inner_wall_line_width(name);
    lemma_is_perimeter_extrusion_width(name);
    lemma_is_nozzle_diameter(name);
}

proof fn lemma_note(marker: Seq<u8>)
    ensures
        ({
            let region = feature::marked(marker);
            let split = text::split_setting(marker);
            &&& feature::changes_layer(marker) ==> scan::note_of(marker) == Note::Layer
            &&& !feature::changes_layer(marker) && region is Some ==> scan::note_of(marker)
                == Note::Region(region->0)
            &&& !feature::changes_layer(marker) && region is None ==> scan::note_of(marker)
                == match split {
                Some((key, value)) => setting_of(key, value),
                None => Note::Nothing,
            }
        }),
{
}

/// A comment that begins a layer or names a region says just that; any other
/// states the setting whose name stands before its first equals sign, with the
/// value behind it.
pub proof fn a_setting_is_known_by_its_name(key: Seq<u8>, value: Seq<u8>)
    requires
        !key.contains(61),
    ensures
        ({
            let marker = key + seq![61u8] + value;
            let region = feature::marked(marker);
            &&& feature::changes_layer(marker) ==> scan::note_of(marker) == Note::Layer
            &&& !feature::changes_layer(marker) && region is Some ==> scan::note_of(marker)
                == Note::Region(region->0)
            &&& !feature::changes_layer(marker) && region is None ==> scan::note_of(marker)
                == setting_named(text::trim(key), text::trim(value))
            &&& scan::setting_value(marker) == text::trim(value)
        }),
        ({
            let region = feature::marked(key);
            &&& feature::changes_layer(key) ==> scan::note_of(key) == Note::Layer
            &&& !feature::changes_layer(key) && region is Some ==> scan::note_of(key)
                == Note::Region(region->0)
            &&& !feature::changes_layer(key) && region is None ==> scan::note_of(key)
                == Note::Nothing
        }),
{
    let marker = key + seq![61u8] + value;
    wording::a_setting_is_split_at_its_first_equals_sign(key, value);
    lemma_setting_named(text::trim(key), text::trim(value));
    lemma_note(marker);
    lemma_note(key);
}

/// A region marker sets the region, and no other line does but a layer's, which
/// ends it.
pub proof fn a_region_lasts_until_the_next(p: Progress, line: Line, m: Measures, region: Feature)
    ensures
        tells(line, Note::Region(region)) ==> scan::fed(p, line, m).feature == region,
        tells(line, Note::Height) || tells(line, Note::Nothing) || commands(line) ==> scan::fed(
            p,
            line,
            m,
        ).feature == p.feature,
{
}

/// A width that ends in a percent sign is a share, and its number is what stands
/// before the sign; any other is a length as it stands.
pub proof fn a_width_is_a_share_where_it_ends_in_a_percent_sign(number: Seq<u8>)
    ensures
        scan::width_of(number + seq![37u8]).0 is Share,
        scan::width_of(number + seq![37u8]).1 == text::trim(number),
        number.len() == 0 || number.last() != 37 ==> scan::width_of(number).0 is Length
            && scan::width_of(number).1 == number,
{
    assert((number + seq![37u8]).drop_last() =~= number);
    assert((number + seq![37u8]).last() == 37);
}

/// A line is this tool's own work where its comment starts with the tool's words,
/// white space aside, to the letter.
pub proof fn a_stamp_is_known_to_the_letter(
    body: Seq<u8>,
    spaces: Seq<u8>,
    said: Seq<u8>,
    words: Seq<char>,
)
    requires
        !body.contains(59),
        wording::is_white(spaces),
        wording::starts_solid(said),
        words == "bricklayers brick "@,
    ensures
        scan::stamped(body + seq![59u8] + (spaces + said)) == (said.len() >= 18 && forall|i: int|
            0 <= i < 18 ==> said[i] as int == #[trigger] words[i] as int),
        !scan::stamped(body),
{
    let raw = body + seq![59u8] + (spaces + said);
    reveal_strlit("bricklayers brick ");
    vstd::utf8::is_ascii_chars_encode_utf8(words);
    let key = text::bytes(words);
    grammar::a_comment_starts_at_the_first_semicolon(body, spaces + said);
    wording::leading_white_space_goes(spaces, said);
    assert(raw.skip(body.len() as int + 1) =~= spaces + said);
    assert(key.len() == 18);
    if key.is_prefix_of(said) {
        assert forall|i: int| 0 <= i < 18 implies said[i] as int == #[trigger] words[i] as int by {
            assert(key[i] == said[i]);
            assert(key[i] == words[i] as u8);
        }
    }
    if said.len() >= 18 && forall|i: int| 0 <= i < 18 ==> said[i] as int == #[trigger] words[i] as int {
        assert forall|i: int| 0 <= i < 18 implies key[i] == said[i] by {
            assert(key[i] == words[i] as u8);
        }
        assert(key =~= said.subrange(0, 18));
    }
}

/// A layer's height says something of whether heights vary where the layer is not
/// the first of an object and the height is a finite number above zero.
pub open spec fn counts(p: Progress, layer: int) -> bool {
    &&& 0 < layer < p.layer_heights.len()
    &&& forall|i: int| 0 <= i < p.object_starts.len() ==> #[trigger] p.object_starts[i] != layer
    &&& double::exponent(p.layer_heights[layer].bits) != 2047
    &&& double::worth(p.layer_heights[layer].bits) > 0
}

proof fn lemma_counts(p: Progress, layer: int)
    requires
        0 <= layer < p.layer_heights.len() <= usize::MAX,
    ensures
        counts(p, layer) == scan::tells(p, layer),
{
    double::doubles_compare_as_what_they_are_worth(p.layer_heights[layer], p.layer_heights[layer]);
    if counts(p, layer) && p.object_starts.contains(layer as usize) {
        let i = choose|i: int| 0 <= i < p.object_starts.len() && p.object_starts[i] == layer as usize;
        assert(p.object_starts[i] != layer);
    }
    if scan::tells(p, layer) {
        assert forall|i: int| 0 <= i < p.object_starts.len() implies #[trigger] p.object_starts[i]
            != layer by {
            assert(p.object_starts.contains(p.object_starts[i]));
        }
    }
}

/// The extremes of a file are heights of layers that count, with none that counts
/// beyond them; where no layer counts they are without bound and nothing.
pub proof fn the_extremes_are_heights_of_layers(p: Progress, upto: int)
    requires
        0 <= upto <= p.layer_heights.len() <= usize::MAX,
    ensures
        ({
            let (low, high) = (scan::lowest_of(p, upto), scan::highest_of(p, upto));
            &&& (forall|i: int| 0 <= i < upto ==> !#[trigger] counts(p, i)) ==> low.bits
                == 0x7ff0_0000_0000_0000 && high.bits == 0
            &&& (exists|i: int| 0 <= i < upto && #[trigger] counts(p, i)) ==> {
                &&& exists|i: int| 0 <= i < upto && #[trigger] counts(p, i) && p.layer_heights[i] == low
                &&& exists|i: int| 0 <= i < upto && #[trigger] counts(p, i) && p.layer_heights[i] == high
            }
            &&& forall|i: int|
                0 <= i < upto && #[trigger] counts(p, i) ==> double::worth(low.bits)
                    <= double::worth(p.layer_heights[i].bits) <= double::worth(high.bits)
        }),
        !double::no_number(scan::lowest_of(p, upto).bits),
        !double::no_number(scan::highest_of(p, upto).bits),
        double::worth(scan::highest_of(p, upto).bits) >= 0,
    decreases upto,
{
    assert(double::worth(0) == 0);
    if upto > 0 {
        let at = upto - 1;
        the_extremes_are_heights_of_layers(p, at);
        lemma_counts(p, at);
        let (low, high) = (scan::lowest_of(p, at), scan::highest_of(p, at));
        let height = p.layer_heights[at];
        if counts(p, at) {
            double::the_lesser_and_the_greater_are_of_the_two(low, height);
            double::the_lesser_and_the_greater_are_of_the_two(high, height);
            if forall|i: int| 0 <= i < at ==> !#[trigger] counts(p, i) {
                double::a_finite_double_is_below_infinity(height, low);
            }
        }
    }
}

/// A command tells the extruder how distances are read, and a `G92` with an E
/// where both streams stand. A move or an arc with an E moves the count of the
/// input where distances are counted from an origin.
pub proof fn a_survey_follows_the_extruder(p: Progress, line: Line, m: Measures)
    requires
        commands(line),
    ensures
        ({
            let before = p.extruder;
            let after = scan::fed(p, line, m).extruder;
            let goes = line.code is Move || line.code is Arc;
            &&& line.code is AbsoluteE ==> after.absolute && after.input == before.input
                && after.output == before.output
            &&& line.code is RelativeE ==> !after.absolute && after.input == before.input
                && after.output == before.output
            &&& line.code is SetPosition && line.e is Some ==> after.input == m.e && after.output
                == m.e && after.absolute == before.absolute
            &&& line.code is SetPosition && line.e is None ==> after == before
            &&& line.code is Other ==> after == before
            &&& goes && line.e is Some && before.absolute ==> after.input == m.e && after.output
                == before.output && after.absolute
            &&& goes && (line.e is None || !before.absolute) ==> after == before
        }),
{
}

/// A move or an arc leaves the nozzle where it names, and where it was on the
/// axes it does not name.
pub proof fn a_survey_follows_the_nozzle(p: Progress, line: Line, m: Measures)
    requires
        commands(line),
    ensures
        ({
            let after = scan::fed(p, line, m).at;
            let goes = line.code is Move || line.code is Arc;
            &&& goes && line.x is Some ==> after.0 == m.x
            &&& !goes || line.x is None ==> after.0 == p.at.0
            &&& goes && line.y is Some ==> after.1 == m.y
            &&& !goes || line.y is None ==> after.1 == p.at.1
        }),
{
}

/// A layer holds a hidden wall where a move in the plane or an arc says that it
/// feeds inside one, and an arc that does is counted.
pub proof fn a_hidden_wall_is_noted_with_its_layer(p: Progress, line: Line, m: Measures)
    requires
        commands(line),
        !double::no_number(m.e.bits),
    ensures
        ({
            let after = scan::fed(p, line, m);
            let feeds = line.e is Some && double::worth(m.e.bits) > 0;
            let hidden = p.feature == Feature::InternalPerimeter;
            &&& hidden && feeds && line.code is Arc ==> after.last_wall_layer == p.open_layer
                && after.arc_extrusions == p.arc_extrusions + 1
            &&& !(hidden && feeds && line.code is Arc) ==> after.arc_extrusions == p.arc_extrusions
            &&& hidden && feeds && line.code is Move && line.has_xy ==> after.last_wall_layer
                == p.open_layer
            &&& !hidden || line.e is None ==> after.last_wall_layer == p.last_wall_layer
        }),
{
    double::doubles_compare_as_what_they_are_worth(Double { bits: 0 }, m.e);
    assert(double::worth(0) == 0);
}

/// In a file without layer markers every rise but the first makes one layer more.
pub proof fn without_markers_layers_are_rises(p: Progress, line: Line, m: Measures)
    requires
        commands(line),
        p.layers == 0,
        p.z_steps.len() > 0,
        scan::total(p.z_steps) < usize::MAX,
        forall|i: int| 0 <= i < p.z_steps.len() ==> (#[trigger] p.z_steps[i]).1 > 0,
    ensures
        ({
            let rises = line.code == Code::Move && line.z is Some && !m.z.same(p.current_z)
                && m.step > 10;
            scan::layers_of(scan::fed(p, line, m)) == scan::layers_of(p) + if rises {
                1nat
            } else {
                0
            }
        }),
{
    scan::lemma_counted(p.z_steps, m.step);
    assert(p.z_steps[p.z_steps.len() - 1].1 > 0);
}

/// A survey starts knowing nothing, at the origin, with distances counted from an
/// origin.
pub proof fn a_survey_starts_knowing_nothing()
    ensures
        ({
            let p = scan::fresh();
            &&& p.layers == 0 && p.open_layer is None && p.below_layer is None
            &&& p.declared_height is None && p.wall_order is None && p.z_feedrate is None
            &&& p.skin_width is None && p.wall_width is None && p.nozzle is None
            &&& !p.bricked && p.arc_extrusions == 0 && p.feature == Feature::Other
            &&& p.z_steps.len() == 0 && p.layer_heights.len() == 0
            &&& p.object_starts.len() == 0 && p.object_tops.len() == 0
            &&& p.uncovered.len() == 0 && p.unsupported.len() == 0
            &&& p.layer_floor is None && p.previous_floor is None && p.last_wall_layer is None
                && p.wall_top_at_open is None
            &&& p.extruder.absolute && p.extruder.input.bits == 0 && p.extruder.output.bits == 0
            &&& p.at.0.bits == 0 && p.at.1.bits == 0 && p.current_z.bits == 0
            &&& forall|cell: u32| !p.here.contains(cell) && !p.below.contains(cell)
        }),
{
}

} // verus!
