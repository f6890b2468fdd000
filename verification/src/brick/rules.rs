//! What a loop is given: its share of the climb, its flow, its corners and the
//! lines that take the nozzle to its height.
//!
//! Nothing here is run. Each rule is stated of the numbers themselves, and what
//! the rest of the transform goes by is held to it.

use super::climb;
use super::flow;
use super::flow::Geometry;
use super::pass::Buffered;
use super::pass::Loop;
use super::schedule;
use super::stamp;
use super::walls;
use crate::double;
use crate::double::Double;
use crate::gcode;
use crate::gcode::Code;
use crate::grammar;
use crate::text;
use vstd::prelude::*;
use vstd::string::*;

verus! {

/// A raised column climbs in two layers: nothing on its first, half of its offset
/// on the second, all of it from the third on. A loop that is capped, or not
/// raised, is laid on the plane.
pub proof fn a_column_climbs_in_two_layers(current: Loop, up: int)
    ensures
        current.raised && !current.capped && current.steps == 0 ==> climb::climb_of(
            current,
            up,
        ).rise == 0,
        current.raised && !current.capped && current.steps == 1 ==> climb::climb_of(
            current,
            up,
        ).rise == 1,
        current.raised && !current.capped && current.steps >= 2 ==> climb::climb_of(
            current,
            up,
        ).rise == 2,
        !current.raised || current.capped ==> climb::climb_of(current, up).rise == 0,
        !current.raised ==> climb::climb_of(current, up).below == 0,
        climb::climb_of(current, up).raised == current.raised,
        climb::RAMP == 2,
{
}

/// A bead starts from where its column was left: what it takes as the height
/// below it is what the loop of the layer below rose to.
pub proof fn a_bead_starts_where_its_column_was_left(
    current: Loop,
    next: Loop,
    up: int,
    next_up: int,
)
    requires
        current.raised,
        !current.capped,
        next.raised,
        next.steps == current.steps + 1,
    ensures
        climb::climb_of(next, next_up).below == climb::climb_of(current, up).rise,
{
}

/// A column that begins has nothing below it that was raised, and walls take
/// their flow on every layer but an object's first.
pub proof fn a_first_layer_is_laid_as_sliced(current: Loop, up: int)
    ensures
        current.steps == 0 ==> climb::climb_of(current, up).below == 0,
        climb::climb_of(current, up).flows == (up >= 1),
{
}

/// A length is a finite number above zero.
pub open spec fn is_length(value: Double) -> bool {
    double::exponent(value.bits) != 2047 && double::worth(value.bits) > 0
}

/// Where the height of a layer, the width of its walls and their spacing are
/// lengths the flow is what was asked for, brought down to the ceiling and up to
/// what was sliced; anywhere else it is that of the reference.
pub proof fn a_flow_is_asked_for_within_its_limits(geometry: Geometry)
    requires
        !double::no_number(geometry.asked.bits),
        !double::no_number(geometry.ceiling.bits),
        !double::no_number(geometry.sliced.bits),
    ensures
        ({
            let asked = double::worth(geometry.asked.bits);
            let ceiling = double::worth(geometry.ceiling.bits);
            let sliced = double::worth(geometry.sliced.bits);
            let flow = double::worth(flow::flow_of(geometry).bits);
            let lengths = geometry.width is Some && is_length(geometry.width->0) && is_length(
                geometry.height,
            ) && is_length(geometry.spacing);
            &&& lengths && sliced <= asked <= ceiling ==> flow == asked
            &&& lengths && sliced <= ceiling <= asked ==> flow == ceiling
            &&& lengths && asked <= sliced ==> flow == sliced
            &&& lengths && ceiling <= sliced ==> flow == sliced
            &&& !lengths ==> flow::flow_of(geometry) == geometry.reference
        }),
{
    let asked = geometry.asked;
    let ceiling = geometry.ceiling;
    let sliced = geometry.sliced;
    double::doubles_compare_as_what_they_are_worth(geometry.height, geometry.height);
    double::doubles_compare_as_what_they_are_worth(geometry.spacing, geometry.spacing);
    if geometry.width is Some {
        double::doubles_compare_as_what_they_are_worth(geometry.width->0, geometry.width->0);
    }
    double::the_lesser_and_the_greater_are_of_the_two(asked, ceiling);
    double::the_lesser_and_the_greater_are_of_the_two(asked.lesser(ceiling), sliced);
}

/// A slope is taken as it was asked for where it lies in its range, and as the
/// nearer end of that range where it does not; what is not finite is not taken at
/// all.
pub proof fn a_slope_is_held_to_its_range(
    extra: Double,
    low: Double,
    high: Double,
    shipped: Double,
)
    requires
        double::exponent(low.bits) != 2047,
        double::exponent(high.bits) != 2047,
        double::worth(low.bits) <= double::worth(high.bits),
    ensures
        ({
            let asked = double::worth(extra.bits);
            let held = flow::held_slope(extra, low, high, shipped);
            let finite = double::exponent(extra.bits) != 2047;
            &&& finite && double::worth(low.bits) <= asked <= double::worth(high.bits) ==> held
                == extra
            &&& finite && asked < double::worth(low.bits) ==> held == low
            &&& finite && asked > double::worth(high.bits) ==> held == high
            &&& !finite ==> held == shipped
        }),
{
    double::doubles_compare_as_what_they_are_worth(extra, low);
    double::doubles_compare_as_what_they_are_worth(high, extra);
}

/// The beads of a loop are the lines of its body that extrude, each of them once
/// and in order.
pub proof fn the_beads_of_a_loop_are_what_it_extrudes(
    buffer: Seq<Buffered>,
    from: int,
    to: int,
    line: int,
)
    requires
        0 <= from <= to <= buffer.len() <= usize::MAX,
    ensures
        walls::beads_of(buffer, from, to).contains(line as usize) && 0 <= line <= usize::MAX
            <==> from <= line < to && buffer[line].extrudes,
        forall|i: int, j: int|
            0 <= i < j < walls::beads_of(buffer, from, to).len() ==> walls::beads_of(
                buffer,
                from,
                to,
            )[i] < walls::beads_of(buffer, from, to)[j],
    decreases to - from,
{
    let beads = walls::beads_of(buffer, from, to);
    if from < to {
        let before = walls::beads_of(buffer, from, to - 1);
        the_beads_of_a_loop_are_what_it_extrudes(buffer, from, to - 1, line);
        lemma_beads_within(buffer, from, to - 1);
        if before.contains(line as usize) {
            let i = choose|i: int| 0 <= i < before.len() && before[i] == line as usize;
            assert(beads[i] == line as usize);
        }
        if line == to - 1 && buffer[line].extrudes {
            assert(beads[beads.len() - 1] == line as usize);
        }
        if beads.contains(line as usize) && 0 <= line <= usize::MAX {
            let i = choose|i: int| 0 <= i < beads.len() && beads[i] == line as usize;
            if i < before.len() {
                assert(before[i] == line as usize);
            }
        }
    }
}

proof fn lemma_beads_within(buffer: Seq<Buffered>, from: int, to: int)
    requires
        0 <= from,
        to <= buffer.len() <= usize::MAX,
    ensures
        forall|i: int|
            0 <= i < walls::beads_of(buffer, from, to).len() ==> from <= #[trigger] walls::beads_of(
                buffer,
                from,
                to,
            )[i] < to && buffer[walls::beads_of(buffer, from, to)[i] as int].extrudes,
    decreases to - from,
{
    if from < to {
        lemma_beads_within(buffer, from, to - 1);
    }
}

/// A loop is drawn in where it is the visible wall and at least three of its
/// lines extrude; with three it has an inside.
pub proof fn a_visible_loop_of_three_beads_is_drawn_in(
    buffer: Seq<Buffered>,
    current: Loop,
    a: int,
    b: int,
    c: int,
)
    requires
        current.body <= a < b < c < current.end <= buffer.len() <= usize::MAX,
        buffer[a].extrudes,
        buffer[b].extrudes,
        buffer[c].extrudes,
    ensures
        walls::can_move(buffer, current) == current.external,
{
    let (from, to) = (current.body as int, current.end as int);
    lemma_beads_counted(buffer, from, to, a, b, c);
}

proof fn lemma_beads_counted(buffer: Seq<Buffered>, from: int, to: int, a: int, b: int, c: int)
    requires
        from <= a < b < c < to <= buffer.len(),
        buffer[a].extrudes,
        buffer[b].extrudes,
        buffer[c].extrudes,
    ensures
        walls::beads_of(buffer, from, to).len() >= 3,
    decreases to - from,
{
    if c < to - 1 {
        lemma_beads_counted(buffer, from, to - 1, a, b, c);
    } else {
        lemma_two_beads(buffer, from, to - 1, a, b);
    }
}

proof fn lemma_two_beads(buffer: Seq<Buffered>, from: int, to: int, a: int, b: int)
    requires
        from <= a < b < to <= buffer.len(),
        buffer[a].extrudes,
        buffer[b].extrudes,
    ensures
        walls::beads_of(buffer, from, to).len() >= 2,
    decreases to - from,
{
    if b < to - 1 {
        lemma_two_beads(buffer, from, to - 1, a, b);
    } else {
        lemma_one_bead(buffer, from, to - 1, a);
    }
}

proof fn lemma_one_bead(buffer: Seq<Buffered>, from: int, to: int, a: int)
    requires
        from <= a < to <= buffer.len(),
        buffer[a].extrudes,
    ensures
        walls::beads_of(buffer, from, to).len() >= 1,
    decreases to - from,
{
    if a < to - 1 {
        lemma_one_bead(buffer, from, to - 1, a);
    }
}

/// A loop of fewer than three beads, or one that is hidden, stays where it is.
pub proof fn a_loop_without_an_inside_stays(buffer: Seq<Buffered>, current: Loop)
    requires
        current.body <= current.end <= buffer.len() <= usize::MAX,
        forall|a: int, b: int, c: int|
            current.body <= a < b < c < current.end ==> !(#[trigger] buffer[a]).extrudes || !(
            #[trigger] buffer[b]).extrudes || !(#[trigger] buffer[c]).extrudes,
    ensures
        !walls::can_move(buffer, current),
{
    let (from, to) = (current.body as int, current.end as int);
    let beads = walls::beads_of(buffer, from, to);
    lemma_beads_within(buffer, from, to);
    the_beads_of_a_loop_are_what_it_extrudes(buffer, from, to, from);
    if beads.len() >= 3 {
        let (a, b, c) = (beads[0] as int, beads[1] as int, beads[2] as int);
        assert(buffer[a].extrudes && buffer[b].extrudes && buffer[c].extrudes);
    }
}

/// The travel that reaches a loop is the last line before its body, and not
/// before its lead, that goes to a place.
pub proof fn a_loop_is_reached_by_its_last_travel(buffer: Seq<Buffered>, current: Loop, at: int)
    requires
        current.lead <= current.body <= buffer.len() <= usize::MAX,
        current.lead - 1 <= at < current.body,
        forall|i: int| at < i < current.body ==> !(#[trigger] buffer[i]).positions,
        at >= current.lead ==> buffer[at].positions,
    ensures
        walls::travel_of(buffer, current) == if at >= current.lead {
            Some(at as usize)
        } else {
            None
        },
{
    lemma_last_travel(buffer, current.lead as int, current.body as int, at);
}

proof fn lemma_last_travel(buffer: Seq<Buffered>, from: int, to: int, at: int)
    requires
        0 <= from <= to <= buffer.len(),
        from - 1 <= at < to,
        forall|i: int| at < i < to ==> !(#[trigger] buffer[i]).positions,
        at >= from ==> buffer[at].positions,
    ensures
        schedule::last_position(buffer, from, to) == if at >= from {
            Some(at)
        } else {
            None
        },
    decreases to - from,
{
    if at < to - 1 && from < to {
        assert(!buffer[to - 1].positions);
        lemma_last_travel(buffer, from, to - 1, at);
    }
}

/// The beads of a closed loop go round its corners: each to the one behind it,
/// the last back to the first, where the travel has landed.
pub proof fn beads_go_round_the_corners(beads: Seq<usize>, travel: Option<usize>, step: int)
    requires
        0 <= step < beads.len() <= usize::MAX,
    ensures
        ({
            let shifts = walls::shifts_of(beads, travel, beads.len());
            &&& shifts[step].line == beads[step]
            &&& step + 1 < beads.len() ==> shifts[step].corner == step + 1
            &&& step + 1 == beads.len() ==> shifts[step].corner == 0
            &&& travel is None ==> shifts.len() == beads.len()
            &&& travel is Some ==> shifts.len() == beads.len() + 1 && shifts.last().line
                == travel->0 && shifts.last().corner == 0
        }),
{
    let n = beads.len() as int;
    if step + 1 < n {
        vstd::arithmetic::div_mod::lemma_small_mod((step + 1) as nat, n as nat);
    } else {
        vstd::arithmetic::div_mod::lemma_mod_self_0(n);
    }
}

/// The line that takes the nozzle to a height is a move that names the height and
/// the rate it is made at, and goes nowhere else.
pub proof fn a_height_is_a_move_of_its_own(z: Seq<u8>, rate: Seq<u8>)
    requires
        grammar::all_figures(z),
        grammar::all_figures(rate),
        gcode::number_of(z) is Some,
        gcode::number_of(rate) is Some,
        z.len() + rate.len() + 6 <= usize::MAX,
    ensures
        ({
            let line = stamp::z_move(z, rate);
            &&& gcode::command(line) == (Code::Move, false)
            &&& gcode::word(line, 122) is Some
            &&& gcode::word(line, 122)->0.value == gcode::number_of(z)->0
            &&& gcode::word(line, 102) is Some
            &&& gcode::word(line, 102)->0.value == gcode::number_of(rate)->0
            &&& gcode::word(line, 101) is None
            &&& !gcode::in_plane(line)
        }),
{
    reveal_strlit("G1 Z");
    reveal_strlit(" F");
    vstd::utf8::is_ascii_chars_encode_utf8("G1 Z"@);
    vstd::utf8::is_ascii_chars_encode_utf8(" F"@);
    let line = stamp::z_move(z, rate);
    assert(text::bytes("G1 Z"@) =~= seq![71u8, 49u8, 32u8, 90u8]);
    assert(text::bytes(" F"@) =~= seq![32u8, 70u8]);
    let tail = seq![32u8, 70u8] + rate;
    assert(line =~= seq![71u8, 49u8, 32u8] + seq![90u8] + z + tail);
    assert forall|i: int| 0 <= i < tail.len() implies !grammar::opens(#[trigger] tail[i], 122) by {
        if i >= 2 {
            assert(grammar::is_figure(rate[i - 2]));
        }
    }
    grammar::a_word_is_a_letter_and_its_number(seq![71u8, 49u8, 32u8], 90, 122, z, tail);
    let head = seq![71u8, 49u8, 32u8, 90u8] + z + seq![32u8];
    assert(line =~= head + seq![70u8] + rate + seq![]);
    grammar::a_word_is_a_letter_and_its_number(head, 70, 102, rate, seq![]);
    let rest = seq![32u8, 90u8] + z + tail;
    assert(line =~= seq![] + seq![71u8] + seq![49u8] + rest);
    grammar::a_command_is_a_letter_and_its_number(seq![], 71, seq![49u8], rest);
    assert forall|i: int| 0 <= i < line.len() implies !grammar::opens(#[trigger] line[i], 101)
        && !grammar::opens(line[i], 120) && !grammar::opens(line[i], 121) by {
        if 4 <= i < 4 + z.len() {
            assert(line[i] == z[i - 4]);
            assert(grammar::is_figure(z[i - 4]));
        } else if i >= 6 + z.len() {
            assert(line[i] == rate[i - 6 - z.len()]);
            assert(grammar::is_figure(rate[i - 6 - z.len()]));
        }
    }
    grammar::a_line_without_a_letter_has_no_such_word(line, 101);
    grammar::the_plane_is_x_and_y(line);
    if gcode::in_plane(line) {
        let i = choose|i: int| #[trigger] grammar::goes_at(line, i);
        assert(!grammar::opens(line[i], 101));
    }
}

/// The line that puts a rate back is a move that names nothing else.
pub proof fn a_rate_is_put_back_by_itself(rate: Seq<u8>)
    requires
        grammar::all_figures(rate),
        gcode::number_of(rate) is Some,
        rate.len() + 4 <= usize::MAX,
    ensures
        ({
            let line = stamp::resume(rate);
            &&& gcode::command(line) == (Code::Move, false)
            &&& gcode::word(line, 102) is Some
            &&& gcode::word(line, 102)->0.value == gcode::number_of(rate)->0
            &&& gcode::word(line, 101) is None
            &&& gcode::word(line, 122) is None
        }),
{
    reveal_strlit("G1 F");
    vstd::utf8::is_ascii_chars_encode_utf8("G1 F"@);
    let line = stamp::resume(rate);
    assert(text::bytes("G1 F"@) =~= seq![71u8, 49u8, 32u8, 70u8]);
    assert(line =~= seq![71u8, 49u8, 32u8] + seq![70u8] + rate + seq![]);
    grammar::a_word_is_a_letter_and_its_number(seq![71u8, 49u8, 32u8], 70, 102, rate, seq![]);
    let rest = seq![32u8, 70u8] + rate;
    assert(line =~= seq![] + seq![71u8] + seq![49u8] + rest);
    grammar::a_command_is_a_letter_and_its_number(seq![], 71, seq![49u8], rest);
    assert forall|i: int| 0 <= i < line.len() implies !grammar::opens(#[trigger] line[i], 101)
        && !grammar::opens(line[i], 122) by {
        if 4 <= i {
            assert(line[i] == rate[i - 4]);
            assert(grammar::is_figure(rate[i - 4]));
        }
    }
    grammar::a_line_without_a_letter_has_no_such_word(line, 101);
    grammar::a_line_without_a_letter_has_no_such_word(line, 122);
}

} // verus!
