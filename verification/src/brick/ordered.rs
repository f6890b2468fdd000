//! What a complete region comes to.
//!
//! Nothing here is run. The extent of a loop, the places it is sampled at, the
//! path it follows, the line its height rides on and the flow of its beads are
//! stated of the lines themselves, and what is measured and written is held to
//! that.

use super::pass::Buffered;
use super::pass::Loop;
use super::pass::Measures;
use super::pass::State;
use super::region;
use super::schedule;
use super::schedule::Emission;
use super::schedule::Lift;
use super::schedule::Nozzle;
use super::schedule::Step;
use super::walls;
use crate::double;
use crate::double::Double;
use crate::gcode::Extruder;
use crate::gcode::Line;
use vstd::prelude::*;

verus! {

/// A line lays a point at a place that is a pair of numbers.
pub open spec fn marks(line: Buffered) -> bool {
    line.extrudes && line.xy is Some
}

/// The places some lines lay points at are pairs of numbers.
pub open spec fn all_numbers(buffer: Seq<Buffered>, from: int, to: int) -> bool {
    forall|i: int|
        from <= i < to && marks(#[trigger] buffer[i]) ==> !double::no_number(
            (buffer[i].xy->0).0.bits,
        ) && !double::no_number((buffer[i].xy->0).1.bits)
}

/// The extent of a loop holds every point it lays, and each of its four sides
/// passes through one. A loop that lays none has no extent.
pub proof fn an_outline_is_drawn_tight(buffer: Seq<Buffered>, from: int, to: int)
    requires
        all_numbers(buffer, from, to),
    ensures
        region::outline_of(buffer, from, to) is Some == exists|i: int|
            from <= i < to && marks(#[trigger] buffer[i]),
        region::outline_of(buffer, from, to) matches Some(outline) ==> {
            &&& forall|i: int|
                from <= i < to && marks(#[trigger] buffer[i]) ==> {
                    let (x, y) = buffer[i].xy->0;
                    &&& double::worth(outline.left.bits) <= double::worth(x.bits) <= double::worth(
                        outline.right.bits,
                    )
                    &&& double::worth(outline.bottom.bits) <= double::worth(y.bits)
                        <= double::worth(outline.top.bits)
                }
            &&& exists|i: int|
                from <= i < to && marks(#[trigger] buffer[i]) && (buffer[i].xy->0).0
                    == outline.left
            &&& exists|i: int|
                from <= i < to && marks(#[trigger] buffer[i]) && (buffer[i].xy->0).0
                    == outline.right
            &&& exists|i: int|
                from <= i < to && marks(#[trigger] buffer[i]) && (buffer[i].xy->0).1
                    == outline.bottom
            &&& exists|i: int|
                from <= i < to && marks(#[trigger] buffer[i]) && (buffer[i].xy->0).1 == outline.top
        },
    decreases to - from,
{
    if from < to {
        an_outline_is_drawn_tight(buffer, from, to - 1);
        let before = region::outline_of(buffer, from, to - 1);
        let line = buffer[to - 1];
        if marks(line) {
            let (x, y) = line.xy->0;
            assert(marks(buffer[to - 1]));
            if let Some(outline) = before {
                let l = choose|i: int|
                    from <= i < to - 1 && marks(#[trigger] buffer[i]) && (buffer[i].xy->0).0
                        == outline.left;
                let r = choose|i: int|
                    from <= i < to - 1 && marks(#[trigger] buffer[i]) && (buffer[i].xy->0).0
                        == outline.right;
                let b = choose|i: int|
                    from <= i < to - 1 && marks(#[trigger] buffer[i]) && (buffer[i].xy->0).1
                        == outline.bottom;
                let t = choose|i: int|
                    from <= i < to - 1 && marks(#[trigger] buffer[i]) && (buffer[i].xy->0).1
                        == outline.top;
                assert(marks(buffer[l]) && marks(buffer[r]) && marks(buffer[b]) && marks(
                    buffer[t],
                ));
                double::the_lesser_and_the_greater_are_of_the_two(outline.left, x);
                double::the_lesser_and_the_greater_are_of_the_two(outline.right, x);
                double::the_lesser_and_the_greater_are_of_the_two(outline.bottom, y);
                double::the_lesser_and_the_greater_are_of_the_two(outline.top, y);
            }
        }
    }
}

/// The lines among some that lay a point.
pub open spec fn marking(lines: Seq<Buffered>) -> Seq<Buffered> {
    lines.filter(|line: Buffered| line.extrudes && line.xy is Some)
}

/// A loop has as many points as lines that lay one.
pub proof fn points_are_counted_once_each(buffer: Seq<Buffered>, from: int, to: int)
    requires
        0 <= from <= to <= buffer.len(),
    ensures
        region::points_of(buffer, from, to) == marking(buffer.subrange(from, to)).len(),
    decreases to - from,
{
    reveal(Seq::filter);
    let part = buffer.subrange(from, to);
    if from < to {
        points_are_counted_once_each(buffer, from, to - 1);
        assert(part.drop_last() =~= buffer.subrange(from, to - 1));
        assert(part.last() == buffer[to - 1]);
    }
}

/// A loop reaches from its own lead to the lead of the next, and the last one to
/// the end of its region.
pub proof fn a_loop_ends_where_the_next_begins(loops: Seq<Loop>, buffer: Seq<Buffered>, k: int)
    requires
        0 <= k < loops.len(),
        buffer.len() <= usize::MAX,
    ensures
        ({
            let found = region::measured(loops, buffer, k);
            &&& k + 1 < loops.len() ==> found.end == loops[k + 1].lead
            &&& k + 1 == loops.len() ==> found.end == buffer.len()
            &&& found == (Loop {
                end: found.end,
                outline: found.outline,
                points: found.points,
                ..loops[k]
            })
            &&& found.outline == region::outline_of(
                buffer,
                loops[k].body as int,
                found.end as int,
            )
            &&& found.points == region::points_of(
                buffer,
                loops[k].body as int,
                found.end as int,
            )
        }),
{
    lemma_points_fit(buffer, loops[k].body as int, region::end_of(loops, buffer.len(), k));
}

proof fn lemma_points_fit(buffer: Seq<Buffered>, from: int, to: int)
    requires
        0 <= from,
    ensures
        from <= to ==> region::points_of(buffer, from, to) <= to - from,
        to <= from ==> region::points_of(buffer, from, to) == 0,
    decreases to - from,
{
    if from < to {
        lemma_points_fit(buffer, from, to - 1);
    }
}

/// Samples of a loop lie as close as sixteen of them allow.
pub proof fn samples_lie_as_close_as_sixteen_allow(points: nat)
    ensures
        region::stride(points) >= 1,
        points <= 16 * region::stride(points),
        region::stride(points) > 1 ==> points > 16 * (region::stride(points) - 1),
{
}

/// A line is a sample where it lays a point and a whole number of strides of
/// points come before it; so the first is one.
pub proof fn samples_are_a_stride_apart(
    buffer: Seq<Buffered>,
    from: int,
    to: int,
    every: nat,
    line: int,
)
    requires
        0 <= from <= to <= buffer.len() <= usize::MAX,
        every > 0,
        from <= line < to,
    ensures
        region::sampled(buffer, from, to, every).contains(line as usize) == (marks(buffer[line])
            && marking(buffer.subrange(from, line)).len() % every == 0),
    decreases to - from,
{
    let all = region::sampled(buffer, from, to, every);
    let before = region::sampled(buffer, from, to - 1, every);
    lemma_samples_within(buffer, from, to - 1, every);
    points_are_counted_once_each(buffer, from, line);
    if line < to - 1 {
        samples_are_a_stride_apart(buffer, from, to - 1, every, line);
        if before.contains(line as usize) {
            let i = choose|i: int| 0 <= i < before.len() && before[i] == line as usize;
            assert(all[i] == line as usize);
        }
        if all.contains(line as usize) {
            let i = choose|i: int| 0 <= i < all.len() && all[i] == line as usize;
            assert(before[i] == line as usize);
        }
    } else {
        if marks(buffer[line]) && region::points_of(buffer, from, line) % every == 0 {
            assert(all[all.len() - 1] == line as usize);
        } else if all.contains(line as usize) {
            let i = choose|i: int| 0 <= i < all.len() && all[i] == line as usize;
            assert(before[i] < to - 1);
        }
    }
}

proof fn lemma_samples_within(buffer: Seq<Buffered>, from: int, to: int, every: nat)
    requires
        0 <= from,
        to <= buffer.len() <= usize::MAX,
    ensures
        forall|i: int|
            0 <= i < region::sampled(buffer, from, to, every).len() ==> from
                <= #[trigger] region::sampled(buffer, from, to, every)[i] < to,
    decreases to - from,
{
    let all = region::sampled(buffer, from, to, every);
    if from < to {
        lemma_samples_within(buffer, from, to - 1, every);
        let before = region::sampled(buffer, from, to - 1, every);
        assert forall|i: int| 0 <= i < all.len() implies from <= #[trigger] all[i] < to by {
            if i < before.len() {
                assert(all[i] == before[i]);
            }
        }
    }
}

/// A loop's path has one move for every bead, in order: from where the line before
/// the bead left the nozzle, or from where the region was entered, to where the
/// bead ends.
pub proof fn a_path_follows_the_beads(
    buffer: Seq<Buffered>,
    entry: (Double, Double),
    from: int,
    to: int,
)
    requires
        0 <= from <= to <= buffer.len() <= usize::MAX,
    ensures
        ({
            let path = region::segments_of(buffer, entry, from, to);
            let beads = walls::beads_of(buffer, from, to);
            &&& path.len() == beads.len()
            &&& forall|i: int|
                0 <= i < path.len() ==> {
                    let bead = beads[i] as int;
                    &&& (#[trigger] path[i]).from == if bead == 0 {
                        entry
                    } else {
                        buffer[bead - 1].at
                    }
                    &&& path[i].to == buffer[bead].at
                    &&& path[i].arc == buffer[bead].arc
                }
        }),
    decreases to - from,
{
    if from < to {
        a_path_follows_the_beads(buffer, entry, from, to - 1);
        let path = region::segments_of(buffer, entry, from, to);
        let less = region::segments_of(buffer, entry, from, to - 1);
        let beads = walls::beads_of(buffer, from, to);
        let fewer = walls::beads_of(buffer, from, to - 1);
        assert forall|i: int| 0 <= i < path.len() implies ({
            let bead = beads[i] as int;
            &&& (#[trigger] path[i]).from == if bead == 0 {
                entry
            } else {
                buffer[bead - 1].at
            }
            &&& path[i].to == buffer[bead].at
            &&& path[i].arc == buffer[bead].arc
        }) by {
            if i < less.len() {
                assert(path[i] == less[i]);
                assert(beads[i] == fewer[i]);
            }
        }
    }
}

/// Two heights are the same number.
pub open spec fn as_high(a: Double, b: Double) -> bool {
    !double::no_number(a.bits) && !double::no_number(b.bits) && double::worth(a.bits)
        == double::worth(b.bits)
}

/// The last height some lines name is that of the last of them that names one.
proof fn lemma_last_z(buffer: Seq<Buffered>, from: int, to: int, at: int)
    requires
        0 <= from <= to <= buffer.len(),
        from - 1 <= at < to,
        forall|i: int| at < i < to ==> (#[trigger] buffer[i]).z is None,
        at >= from ==> buffer[at].z is Some,
    ensures
        schedule::last_z(buffer, from, to) == if at >= from {
            buffer[at].z
        } else {
            None
        },
    decreases to - from,
{
    if at < to - 1 && from < to {
        assert(buffer[to - 1].z is None);
        lemma_last_z(buffer, from, to - 1, at);
    }
}

proof fn lemma_last_position(buffer: Seq<Buffered>, from: int, to: int, at: int)
    requires
        0 <= from <= to <= buffer.len(),
        from - 1 <= at < to,
        forall|i: int| at < i < to ==> !(#[trigger] buffer[i]).positions,
        at >= from ==> buffer[at].positions,
    ensures
        schedule::last_position(buffer, from, to) == if at >= from {
            Some(at)
        } else {
            None
        },
    decreases to - from,
{
    if at < to - 1 && from < to {
        assert(!buffer[to - 1].positions);
        lemma_last_position(buffer, from, to - 1, at);
    }
}

/// A height rides on the last move of some lines that decides where the nozzle
/// is, where that is a plain one, and not one the slicer had put above the height.
/// Nothing rides where those lines, or failing them what came before, leave the
/// nozzle there anyway. `named` is the last of the lines that names a height and
/// `at` the last that moves, each one before the first where there is none.
pub proof fn a_height_rides_the_last_plain_move(
    buffer: Seq<Buffered>,
    from: int,
    to: int,
    z: Double,
    nozzle: Option<Double>,
    named: int,
    at: int,
)
    requires
        0 <= from <= to <= buffer.len(),
        from - 1 <= named < to,
        forall|i: int| named < i < to ==> (#[trigger] buffer[i]).z is None,
        named >= from ==> buffer[named].z is Some,
        from - 1 <= at < to,
        forall|i: int| at < i < to ==> !(#[trigger] buffer[i]).positions,
        at >= from ==> buffer[at].positions,
        !double::no_number(z.bits),
    ensures
        ({
            let there = if named >= from {
                as_high(buffer[named].z->0, z)
            } else {
                nozzle is Some && as_high(nozzle->0, z)
            };
            let clear = buffer[at].z is None || !double::no_number(buffer[at].z->0.bits)
                && double::worth(buffer[at].z->0.bits) <= double::worth(z.bits);
            schedule::carrier(buffer, from, to, z, nozzle) == if !there && at >= from
                && buffer[at].carries && clear {
                Some(at)
            } else {
                None
            }
        }),
{
    lemma_last_z(buffer, from, to, named);
    lemma_last_position(buffer, from, to, at);
    if named >= from {
        double::doubles_compare_as_what_they_are_worth(buffer[named].z->0, z);
    } else if nozzle is Some {
        double::doubles_compare_as_what_they_are_worth(nozzle->0, z);
    }
    if at >= from && buffer[at].z is Some {
        double::doubles_compare_as_what_they_are_worth(buffer[at].z->0, z);
    }
}

/// A move of its own is made to a height where the nozzle is not at it, and only
/// there. The rate the file goes at is put back after it where it is another than
/// that of the move.
pub proof fn a_height_is_gone_to_where_the_nozzle_is_not(
    nozzle: Nozzle,
    z: Double,
    raised: bool,
    rate: Double,
)
    ensures
        ({
            let steps = schedule::z_steps(nozzle, z, raised, rate);
            let there = nozzle.z is Some && as_high(nozzle.z->0, z);
            &&& there ==> steps.len() == 0 && schedule::at_height(nozzle, z) == nozzle
            &&& !there ==> steps.len() == 1 && schedule::at_height(nozzle, z).z == Some(z)
                && schedule::at_height(nozzle, z).f == nozzle.f
            &&& !there ==> (steps[0] matches Step::MoveZ { z: to, raised: up, resume } && to == z && up
                == raised && resume == if nozzle.f is Some && !as_high(nozzle.f->0, rate) {
                nozzle.f
            } else {
                None
            })
        }),
{
    if nozzle.z is Some {
        double::doubles_compare_as_what_they_are_worth(nozzle.z->0, z);
    }
    if nozzle.f is Some {
        double::doubles_compare_as_what_they_are_worth(nozzle.f->0, rate);
    }
}

/// A loop is lifted where it is raised by more than nothing, and laid at its own
/// height where it is raised at all and on the plane where it is not.
pub proof fn a_raised_loop_is_laid_at_its_own_height(current: Loop, lift: Lift, plane: Double)
    ensures
        !current.raised ==> !schedule::lifted(current, lift) && schedule::target(
            current,
            lift,
            plane,
        ) == plane,
        current.raised ==> schedule::target(current, lift, plane) == lift.target,
        current.raised ==> schedule::lifted(current, lift) == (!double::no_number(lift.offset.bits)
            && double::worth(lift.offset.bits) > 0),
{
    double::doubles_compare_as_what_they_are_worth(Double { bits: 0 }, lift.offset);
    assert(double::worth(0) == 0);
}

/// What one step of a loop is: a line of its lead as it was metered, a line of its
/// body at the loop's own flow, the height of the loop on its lead or by itself,
/// or the plane on its body.
pub open spec fn belongs(
    step: Step,
    loops: Seq<Loop>,
    lifts: Seq<Lift>,
    plane: Double,
    k: int,
) -> bool {
    let current = loops[k];
    let height = if current.raised {
        lifts[k].target
    } else {
        plane
    };
    let up = current.raised && !double::no_number(lifts[k].offset.bits) && double::worth(
        lifts[k].offset.bits,
    ) > 0;
    match step {
        Step::Replay { index, flow } => {
            &&& current.lead <= index < current.end
            &&& index < current.body ==> flow is None
            &&& index >= current.body ==> flow == Some(k as usize)
        },
        Step::Ride { index, z, raised } => {
            &&& current.lead <= index < current.end
            &&& index < current.body ==> z == height && raised == up
            &&& index >= current.body ==> z == plane && !raised && up && k == loops.len() - 1
        },
        Step::MoveZ { z, raised, .. } => z == height && raised == up,
    }
}

/// Every step of a loop is one of those.
pub proof fn a_loop_is_written_at_its_own_flow_and_height(
    buffer: Seq<Buffered>,
    loops: Seq<Loop>,
    lifts: Seq<Lift>,
    plane: Double,
    rate: Double,
    k: int,
    nozzle: Nozzle,
    p: int,
)
    requires
        0 <= k < loops.len() <= usize::MAX,
        loops[k].lead <= loops[k].body <= loops[k].end <= buffer.len() <= usize::MAX,
        0 <= p < schedule::loop_steps(buffer, loops, lifts, plane, rate, k, nozzle).0.len(),
    ensures
        belongs(
            schedule::loop_steps(buffer, loops, lifts, plane, rate, k, nozzle).0[p],
            loops,
            lifts,
            plane,
            k,
        ),
{
    reveal(schedule::loop_steps);
    let current = loops[k];
    a_raised_loop_is_laid_at_its_own_height(current, lifts[k], plane);
    let raise = schedule::lifted(current, lifts[k]);
    let z = schedule::target(current, lifts[k], plane);
    let lead = current.lead as int;
    let body = current.body as int;
    let end = current.end as int;
    let up = schedule::carrier(buffer, lead, body, z, nozzle.z);
    let reached = schedule::nozzle_after(buffer, lead, body, up, z, nozzle);
    let settled = schedule::at_height(reached, z);
    let down = if k + 1 == loops.len() && raise {
        schedule::carrier(buffer, body, end, plane, settled.z)
    } else {
        None
    };
    let a = schedule::line_steps(lead, body, up, z, raise, None);
    let b = schedule::z_steps(reached, z, raise, rate);
    let c = schedule::line_steps(body, end, down, plane, false, Some(k as usize));
    assert(a.len() == body - lead);
    assert(c.len() == end - body);
    let steps = a + b + c;
    if p < a.len() {
        assert(steps[p] == a[p]);
    } else if p < a.len() + b.len() {
        assert(steps[p] == b[p - a.len()]);
    } else {
        assert(steps[p] == c[p - a.len() - b.len()]);
    }
}

/// A region's lines before its first loop go out as they are, then its loops one
/// after the other; and behind a last loop that was lifted the nozzle is brought
/// back to the plane, where it is not there.
pub proof fn a_region_is_written_loop_by_loop(
    buffer: Seq<Buffered>,
    loops: Seq<Loop>,
    lifts: Seq<Lift>,
    plane: Double,
    rate: Double,
    nozzle: Nozzle,
    k: int,
)
    requires
        0 <= k < loops.len() == lifts.len(),
    ensures
        ({
            let before = schedule::steps_upto(buffer, loops, lifts, plane, rate, nozzle, k);
            let after = schedule::steps_upto(buffer, loops, lifts, plane, rate, nozzle, k + 1);
            let own = schedule::loop_steps(buffer, loops, lifts, plane, rate, k, before.1);
            after == (before.0 + own.0, own.1)
        }),
        ({
            let n = loops.len() as int;
            let last = loops[n - 1];
            let up = last.raised && !double::no_number(lifts[n - 1].offset.bits) && double::worth(
                lifts[n - 1].offset.bits,
            ) > 0;
            let all = schedule::steps_upto(buffer, loops, lifts, plane, rate, nozzle, n);
            let written = schedule::scheduled(buffer, loops, lifts, plane, rate, nozzle);
            &&& !up ==> written == all
            &&& up ==> written.0 == all.0 + schedule::z_steps(all.1, plane, false, rate)
            &&& up ==> written.1 == schedule::at_height(all.1, plane)
        }),
{
    let n = loops.len() as int;
    a_raised_loop_is_laid_at_its_own_height(loops[n - 1], lifts[n - 1], plane);
}

/// The lines before a region's first loop, and all of one without any, go out as
/// they are and at their own flow.
pub proof fn what_leads_to_a_region_goes_out_as_it_is(
    buffer: Seq<Buffered>,
    loops: Seq<Loop>,
    lifts: Seq<Lift>,
    plane: Double,
    rate: Double,
    nozzle: Nozzle,
    p: int,
)
    requires
        buffer.len() <= usize::MAX,
        loops.len() > 0 ==> loops[0].lead <= buffer.len(),
        0 <= p < if loops.len() > 0 {
            loops[0].lead as int
        } else {
            buffer.len() as int
        },
    ensures
        ({
            let head = schedule::steps_upto(buffer, loops, lifts, plane, rate, nozzle, 0).0;
            &&& head.len() == if loops.len() > 0 {
                loops[0].lead as int
            } else {
                buffer.len() as int
            }
            &&& head[p] matches Step::Replay { index, flow } && index == p && flow is None
        }),
{
}

/// Some lines leave the rate at the last one that any of them names, and otherwise
/// at what it was.
pub proof fn lines_leave_the_last_rate_they_name(
    buffer: Seq<Buffered>,
    from: int,
    to: int,
    ride: Option<int>,
    z: Double,
    nozzle: Nozzle,
    at: int,
)
    requires
        0 <= from <= to <= buffer.len(),
        from - 1 <= at < to,
        forall|i: int| at < i < to ==> (#[trigger] buffer[i]).f is None,
        at >= from ==> buffer[at].f is Some,
    ensures
        schedule::nozzle_after(buffer, from, to, ride, z, nozzle).f == if at >= from {
            buffer[at].f
        } else {
            nozzle.f
        },
    decreases to - from,
{
    if from < to && at < to - 1 {
        assert(buffer[to - 1].f is None);
        lines_leave_the_last_rate_they_name(buffer, from, to - 1, ride, z, nozzle, at);
    }
}

/// The lines of some loops that are laid above the plane.
pub open spec fn lifted_ones(pairs: Seq<(Loop, Lift)>) -> Seq<(Loop, Lift)> {
    pairs.filter(
        |pair: (Loop, Lift)|
            pair.0.raised && !double::no_number(pair.1.offset.bits) && double::worth(
                pair.1.offset.bits,
            ) > 0,
    )
}

/// Some loops with how far each is lifted.
pub open spec fn paired(loops: Seq<Loop>, lifts: Seq<Lift>, upto: int) -> Seq<(Loop, Lift)> {
    Seq::new(upto as nat, |k: int| (loops[k], lifts[k]))
}

/// The loops that are raised and capped.
pub open spec fn capped_ones(loops: Seq<Loop>) -> Seq<Loop> {
    loops.filter(|current: Loop| current.raised && current.capped)
}

/// The loops that are reported as raised are those that were lifted, and those
/// reported as capped the raised ones that are.
pub proof fn loops_are_counted_by_what_became_of_them(
    loops: Seq<Loop>,
    lifts: Seq<Lift>,
    upto: int,
)
    requires
        0 <= upto <= loops.len() == lifts.len(),
    ensures
        schedule::count_lifted(loops, lifts, upto) == lifted_ones(paired(loops, lifts, upto)).len(),
        schedule::count_capped(loops, upto) == capped_ones(loops.take(upto)).len(),
    decreases upto,
{
    reveal(Seq::filter);
    let pairs = paired(loops, lifts, upto);
    let part = loops.take(upto);
    if upto > 0 {
        loops_are_counted_by_what_became_of_them(loops, lifts, upto - 1);
        assert(pairs.drop_last() =~= paired(loops, lifts, upto - 1));
        assert(pairs.last() == (loops[upto - 1], lifts[upto - 1]));
        assert(part.drop_last() =~= loops.take(upto - 1));
        assert(part.last() == loops[upto - 1]);
        a_raised_loop_is_laid_at_its_own_height(
            loops[upto - 1],
            lifts[upto - 1],
            Double { bits: 0 },
        );
    }
}

/// A line that asks for filament goes out with what it is to lay, counted from
/// the origin or not as the stream is, and untouched where that is what it says
/// already. One that asks for none goes out untouched, and a `G92` with an E moves
/// the count to it.
pub proof fn a_line_carries_what_it_is_to_lay(
    extruder: Extruder,
    line: Buffered,
    scaled: Double,
    sum: Double,
)
    ensures
        ({
            let (after, emitted) = schedule::metered(extruder, line, scaled, sum);
            let value = if extruder.absolute {
                sum
            } else {
                scaled
            };
            let says = line.e is Some && as_high(line.e->0, value);
            &&& line.delta is None ==> emitted is Copied
            &&& line.delta is None && line.resets_origin && line.e is Some ==> after.output
                == line.e->0
            &&& line.delta is None && !(line.resets_origin && line.e is Some) ==> after.output
                == extruder.output
            &&& line.delta is Some && says ==> emitted is Copied
            &&& line.delta is Some && !says ==> (emitted matches Emission::Metered(digits) && digits
                == value)
            &&& line.delta is Some && extruder.absolute ==> after.output == sum
            &&& line.delta is Some && !extruder.absolute && !line.resets_origin ==> after.output
                == extruder.output
            &&& after.input == extruder.input
            &&& after.absolute == extruder.absolute
        }),
{
    if line.e is Some {
        double::doubles_compare_as_what_they_are_worth(line.e->0, sum);
        double::doubles_compare_as_what_they_are_worth(line.e->0, scaled);
    }
}

/// A line that is let through leaves the nozzle at the height a straight move
/// names and in the rate any line does, and carries what it asked for: its own E
/// where distances are as they are, and the count with its filament on top where
/// they are counted from an origin.
pub proof fn what_is_let_through_carries_what_it_asked_for(
    state: State,
    line: Line,
    m: Measures,
    sum: Double,
)
    ensures
        ({
            let (after, emitted) = schedule::through(state, line, m, sum);
            let feeds = line.e is Some && (line.code is Move || line.code is Arc);
            let absolute = state.extruder.absolute;
            &&& after.nozzle_z == if line.code is Move && line.z is Some {
                Some(m.z)
            } else {
                state.nozzle_z
            }
            &&& after.feedrate == if line.f is Some {
                Some(m.f)
            } else {
                state.feedrate
            }
            &&& !feeds ==> emitted is Copied
            &&& !feeds && line.code is SetPosition && line.e is Some ==> after.extruder.output
                == m.e
            &&& !feeds && !(line.code is SetPosition && line.e is Some) ==> after.extruder
                == state.extruder
            &&& feeds && absolute ==> after.extruder.output == sum && after.extruder.input == m.e
            &&& feeds && !absolute ==> after.extruder == state.extruder
            &&& feeds && absolute && as_high(sum, m.e) ==> emitted is Copied
            &&& feeds && absolute && !as_high(sum, m.e) ==> (emitted matches Emission::Metered(
                value,
            ) && value == sum)
            &&& feeds && !absolute && !double::no_number(m.e.bits) ==> emitted is Copied
            &&& after.feature == state.feature && after.layer == state.layer && after.at == state.at
        }),
{
    double::doubles_compare_as_what_they_are_worth(sum, m.e);
    double::doubles_compare_as_what_they_are_worth(m.e, m.e);
}

} // verus!
