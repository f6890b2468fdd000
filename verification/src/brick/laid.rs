//! Where the beads of a region are laid.
//!
//! Nothing here is run. It follows the nozzle through what a region is written
//! as, and states what that comes to.

use super::pass;
use super::pass::Buffered;
use super::pass::Loop;
use super::pass::Measures;
use super::pass::State;
use super::region;
use super::schedule;
use super::schedule::Emission;
use super::schedule::Lift;
use super::schedule::Nozzle;
use super::schedule::Step;
use crate::double::Double;
use crate::gcode::Extruder;
use crate::gcode::Line;
use vstd::prelude::*;

verus! {

/// The height the nozzle is left at by some steps.
pub open spec fn height_after(
    buffer: Seq<Buffered>,
    steps: Seq<Step>,
    start: Option<Double>,
) -> Option<Double>
    decreases steps.len(),
{
    if steps.len() == 0 {
        start
    } else {
        match steps.last() {
            Step::Replay { index, .. } => if buffer[index as int].z is Some {
                buffer[index as int].z
            } else {
                height_after(buffer, steps.drop_last(), start)
            },
            Step::Ride { z, .. } => Some(z),
            Step::MoveZ { z, .. } => Some(z),
        }
    }
}

proof fn lemma_height_add(buffer: Seq<Buffered>, a: Seq<Step>, b: Seq<Step>, start: Option<Double>)
    ensures
        height_after(buffer, a + b, start) == height_after(
            buffer,
            b,
            height_after(buffer, a, start),
        ),
    decreases b.len(),
{
    if b.len() == 0 {
        assert(a + b =~= a);
    } else {
        lemma_height_add(buffer, a, b.drop_last(), start);
        assert((a + b).drop_last() =~= a + b.drop_last());
    }
}

proof fn lemma_height_of_lines(
    buffer: Seq<Buffered>,
    from: int,
    to: int,
    ride: Option<int>,
    z: Double,
    raised: bool,
    flow: Option<usize>,
    nozzle: Nozzle,
)
    requires
        0 <= from <= to <= usize::MAX,
    ensures
        height_after(buffer, schedule::line_steps(from, to, ride, z, raised, flow), nozzle.z)
            == schedule::nozzle_after(buffer, from, to, ride, z, nozzle).z,
    decreases to - from,
{
    let steps = schedule::line_steps(from, to, ride, z, raised, flow);
    if from < to {
        lemma_height_of_lines(buffer, from, to - 1, ride, z, raised, flow, nozzle);
        assert(steps.drop_last() =~= schedule::line_steps(from, to - 1, ride, z, raised, flow));
    }
}

proof fn lemma_height_of_move(
    buffer: Seq<Buffered>,
    nozzle: Nozzle,
    z: Double,
    raised: bool,
    rate: Double,
)
    ensures
        height_after(buffer, schedule::z_steps(nozzle, z, raised, rate), nozzle.z)
            == schedule::at_height(nozzle, z).z,
{
}

/// A bead of a loop is laid at a step: no line of the loop before it names a
/// height of its own, and it decides where the nozzle is next.
pub open spec fn plain_bead(buffer: Seq<Buffered>, current: Loop, index: int) -> bool {
    &&& current.body <= index < current.end
    &&& buffer[index].positions
    &&& forall|j: int| current.body <= j < index ==> (#[trigger] buffer[j]).z is None
}

/// The step at `p` is no bead of a loop, or one that is laid at its height.
spec fn laid_right(
    buffer: Seq<Buffered>,
    loops: Seq<Loop>,
    lifts: Seq<Lift>,
    plane: Double,
    start: Option<Double>,
    steps: Seq<Step>,
    p: int,
) -> bool {
    match steps[p] {
        Step::Replay { index, flow: Some(k) } => {
            &&& k < loops.len()
            &&& plain_bead(buffer, loops[k as int], index as int) ==> schedule::level(
                height_after(buffer, steps.take(p), start),
                schedule::target(loops[k as int], lifts[k as int], plane),
            )
        },
        _ => true,
    }
}

proof fn lemma_last_position(buffer: Seq<Buffered>, from: int, to: int, index: int)
    requires
        from <= index < to,
        buffer[index].positions,
    ensures
        schedule::last_position(buffer, from, to) is Some,
        schedule::last_position(buffer, from, to)->0 >= index,
    decreases to - from,
{
    if !buffer[to - 1].positions {
        lemma_last_position(buffer, from, to - 1, index);
    }
}

proof fn lemma_nozzle_stays(
    buffer: Seq<Buffered>,
    from: int,
    to: int,
    ride: Option<int>,
    z: Double,
    nozzle: Nozzle,
)
    requires
        forall|j: int| from <= j < to ==> (#[trigger] buffer[j]).z is None,
        ride is Some ==> !(from <= ride->0 < to),
    ensures
        schedule::nozzle_after(buffer, from, to, ride, z, nozzle).z == nozzle.z,
    decreases to - from,
{
    if from < to {
        lemma_nozzle_stays(buffer, from, to - 1, ride, z, nozzle);
    }
}

/// Follows the nozzle through what is written for one loop.
proof fn lemma_loop_heights(
    buffer: Seq<Buffered>,
    loops: Seq<Loop>,
    lifts: Seq<Lift>,
    plane: Double,
    rate: Double,
    k: int,
    nozzle: Nozzle,
)
    requires
        pass::follows(loops, buffer),
        region::closed(loops, buffer.len()),
        buffer.len() <= usize::MAX,
        loops.len() <= usize::MAX,
        0 <= k < loops.len(),
        schedule::target(loops[k], lifts[k], plane).number(),
    ensures
        ({
            let (steps, left) = schedule::loop_steps(buffer, loops, lifts, plane, rate, k, nozzle);
            &&& height_after(buffer, steps, nozzle.z) == left.z
            &&& forall|p: int|
                0 <= p < steps.len() ==> #[trigger] laid_right(
                    buffer,
                    loops,
                    lifts,
                    plane,
                    nozzle.z,
                    steps,
                    p,
                )
        }),
{
    region::lemma_span(loops, buffer, k);
    reveal(schedule::loop_steps);
    let current = loops[k];
    let raise = schedule::lifted(current, lifts[k]);
    let z = schedule::target(current, lifts[k], plane);
    let lead = current.lead as int;
    let body = current.body as int;
    let end = current.end as int;
    let up = schedule::carrier(buffer, lead, body, z, nozzle.z);
    let reached = schedule::nozzle_after(buffer, lead, body, up, z, nozzle);
    let settled = schedule::at_height(reached, z);
    let down = if k + 1 == loops.len() && raise {
        schedule::carrier(buffer, body, end, plane, settled.z)
    } else {
        None
    };
    let a = schedule::line_steps(lead, body, up, z, raise, None);
    let b = schedule::z_steps(reached, z, raise, rate);
    let c = schedule::line_steps(body, end, down, plane, false, Some(k as usize));
    lemma_height_of_lines(buffer, lead, body, up, z, raise, None, nozzle);
    lemma_height_of_move(buffer, reached, z, raise, rate);
    lemma_height_of_lines(buffer, body, end, down, plane, false, Some(k as usize), settled);
    lemma_height_add(buffer, a, b, nozzle.z);
    lemma_height_add(buffer, a + b, c, nozzle.z);
    let steps = a + b + c;
    assert(schedule::level(settled.z, z));
    assert forall|p: int| 0 <= p < steps.len() implies #[trigger] laid_right(
        buffer,
        loops,
        lifts,
        plane,
        nozzle.z,
        steps,
        p,
    ) by {
        if p < a.len() {
            assert(steps[p] == a[p]);
        } else if p < a.len() + b.len() {
            assert(steps[p] == b[p - a.len()]);
        } else {
            let i = p - a.len() - b.len();
            assert(steps[p] == c[i]);
            if plain_bead(buffer, current, body + i) {
                let before = schedule::line_steps(
                    body,
                    body + i,
                    down,
                    plane,
                    false,
                    Some(k as usize),
                );
                assert(steps.take(p) =~= a + b + before);
                lemma_height_add(buffer, a + b, before, nozzle.z);
                lemma_height_of_lines(
                    buffer,
                    body,
                    body + i,
                    down,
                    plane,
                    false,
                    Some(k as usize),
                    settled,
                );
                lemma_last_position(buffer, body, end, body + i);
                lemma_nozzle_stays(buffer, body, body + i, down, plane, settled);
            }
        }
    }
}

/// Follows the nozzle through the head of a region and its first `upto` loops.
proof fn lemma_heights_upto(
    buffer: Seq<Buffered>,
    loops: Seq<Loop>,
    lifts: Seq<Lift>,
    plane: Double,
    rate: Double,
    nozzle: Nozzle,
    upto: int,
)
    requires
        pass::follows(loops, buffer),
        region::closed(loops, buffer.len()),
        buffer.len() <= usize::MAX,
        loops.len() <= usize::MAX,
        0 <= upto <= loops.len(),
        forall|k: int|
            0 <= k < loops.len() ==> (#[trigger] schedule::target(
                loops[k],
                lifts[k],
                plane,
            )).number(),
    ensures
        ({
            let (steps, left) = schedule::steps_upto(
                buffer,
                loops,
                lifts,
                plane,
                rate,
                nozzle,
                upto,
            );
            &&& height_after(buffer, steps, nozzle.z) == left.z
            &&& forall|p: int|
                0 <= p < steps.len() ==> #[trigger] laid_right(
                    buffer,
                    loops,
                    lifts,
                    plane,
                    nozzle.z,
                    steps,
                    p,
                )
        }),
    decreases upto,
{
    if upto == 0 {
        let head = schedule::head_of(loops, buffer.len());
        if loops.len() > 0 {
            region::lemma_span(loops, buffer, 0);
        }
        lemma_height_of_lines(buffer, 0, head, None, plane, false, None, nozzle);
    } else {
        let k = upto - 1;
        lemma_heights_upto(buffer, loops, lifts, plane, rate, nozzle, k);
        let (before, reached) = schedule::steps_upto(
            buffer,
            loops,
            lifts,
            plane,
            rate,
            nozzle,
            k,
        );
        let (more, left) = schedule::loop_steps(buffer, loops, lifts, plane, rate, k, reached);
        assert(schedule::target(loops[k], lifts[k], plane).number());
        lemma_loop_heights(buffer, loops, lifts, plane, rate, k, reached);
        lemma_height_add(buffer, before, more, nozzle.z);
        let steps = before + more;
        assert forall|p: int| 0 <= p < steps.len() implies #[trigger] laid_right(
            buffer,
            loops,
            lifts,
            plane,
            nozzle.z,
            steps,
            p,
        ) by {
            if p < before.len() {
                assert(steps[p] == before[p]);
                assert(steps.take(p) =~= before.take(p));
                assert(laid_right(buffer, loops, lifts, plane, nozzle.z, before, p));
            } else {
                let i = p - before.len();
                assert(steps[p] == more[i]);
                assert(steps.take(p) =~= before + more.take(i));
                lemma_height_add(buffer, before, more.take(i), nozzle.z);
                assert(laid_right(buffer, loops, lifts, plane, reached.z, more, i));
            }
        }
    }
}

/// What is kept of the nozzle is where it is: the steps of a region leave it at
/// the height that is carried over to the next one.
pub proof fn the_nozzle_is_where_it_is_thought_to_be(
    buffer: Seq<Buffered>,
    loops: Seq<Loop>,
    lifts: Seq<Lift>,
    plane: Double,
    rate: Double,
    nozzle: Nozzle,
)
    requires
        pass::follows(loops, buffer),
        region::closed(loops, buffer.len()),
        buffer.len() <= usize::MAX,
        loops.len() <= usize::MAX,
        forall|k: int|
            0 <= k < loops.len() ==> (#[trigger] schedule::target(
                loops[k],
                lifts[k],
                plane,
            )).number(),
    ensures
        ({
            let (steps, left) = schedule::scheduled(buffer, loops, lifts, plane, rate, nozzle);
            height_after(buffer, steps, nozzle.z) == left.z
        }),
{
    let upto = loops.len() as int;
    lemma_heights_upto(buffer, loops, lifts, plane, rate, nozzle, upto);
    let (steps, left) = schedule::steps_upto(buffer, loops, lifts, plane, rate, nozzle, upto);
    lemma_height_add(buffer, steps, schedule::z_steps(left, plane, false, rate), nozzle.z);
    lemma_height_of_move(buffer, left, plane, false, rate);
}

/// Every bead is laid at the height of its loop, raised or on the plane, unless
/// the slicer itself moved the nozzle within that loop.
pub proof fn a_bead_is_laid_at_its_loops_height(
    buffer: Seq<Buffered>,
    loops: Seq<Loop>,
    lifts: Seq<Lift>,
    plane: Double,
    rate: Double,
    nozzle: Nozzle,
    p: int,
    index: usize,
    k: usize,
)
    requires
        pass::follows(loops, buffer),
        region::closed(loops, buffer.len()),
        buffer.len() <= usize::MAX,
        loops.len() <= usize::MAX,
        forall|k: int|
            0 <= k < loops.len() ==> (#[trigger] schedule::target(
                loops[k],
                lifts[k],
                plane,
            )).number(),
        0 <= p < schedule::scheduled(buffer, loops, lifts, plane, rate, nozzle).0.len(),
        schedule::scheduled(buffer, loops, lifts, plane, rate, nozzle).0[p] == (Step::Replay {
            index,
            flow: Some(k),
        }),
        plain_bead(buffer, loops[k as int], index as int),
    ensures
        schedule::level(
            height_after(
                buffer,
                schedule::scheduled(buffer, loops, lifts, plane, rate, nozzle).0.take(p),
                nozzle.z,
            ),
            schedule::target(loops[k as int], lifts[k as int], plane),
        ),
{
    let upto = loops.len() as int;
    lemma_heights_upto(buffer, loops, lifts, plane, rate, nozzle, upto);
    let (steps, left) = schedule::steps_upto(buffer, loops, lifts, plane, rate, nozzle, upto);
    let all = schedule::scheduled(buffer, loops, lifts, plane, rate, nozzle).0;
    if p < steps.len() {
        assert(all[p] == steps[p]);
        assert(all.take(p) =~= steps.take(p));
        assert(laid_right(buffer, loops, lifts, plane, nozzle.z, steps, p));
    }
}

/// A held line whose filament is not scaled goes out as it came in, while
/// filament is metered by the move.
pub proof fn an_unscaled_line_goes_out_as_it_came_in(extruder: Extruder, line: Buffered, sum: Double)
    requires
        !extruder.absolute,
        line.delta == line.e,
        line.e is Some ==> line.e->0.number(),
    ensures
        ({
            let scaled = line.delta->0;
            schedule::metered(extruder, line, scaled, sum).1 is Copied
        }),
{
}

/// A line that is let through while filament is metered by the move goes out as
/// it came in, whatever was done to the walls before it.
pub proof fn what_is_let_through_is_metered_as_sliced(
    state: State,
    line: Line,
    m: Measures,
    sum: Double,
)
    requires
        !state.extruder.absolute,
        m.e.number(),
    ensures
        schedule::through(state, line, m, sum).1 is Copied,
{
}

/// Where filament is counted from an origin, a line that is let through moves
/// the count by what it asks for and by nothing else.
pub proof fn what_is_let_through_lays_what_it_asks_for(
    state: State,
    line: Line,
    m: Measures,
    sum: Double,
)
    requires
        state.extruder.absolute,
        pass::demand(state.extruder, line, m) is Some,
    ensures
        schedule::through(state, line, m, sum).0.extruder.output == sum,
        schedule::through(state, line, m, sum).1 matches Emission::Metered(value) ==> value == sum,
        schedule::through(state, line, m, sum).1 is Copied ==> sum.same(m.e),
{
}

} // verus!
