//! The order a region is written in, and where its height changes ride.
//!
//! A `G1 Z` between two loops stops the toolhead dead: it names no other axis,
//! so the planner cannot blend it with the moves on either side, and the nozzle
//! sits still and primed over the loop's start point while the axis crawls.
//! Every loop start is the seam, and an aligned seam stacks them into one
//! column, so the ooze from all of them lands in a line. A height change
//! therefore rides a move the slicer was already making wherever one can take
//! it.

use super::pass;
use super::pass::Buffered;
use super::pass::Loop;
use super::pass::Measures;
use super::pass::Pass;
use super::pass::State;
use super::region;
use crate::double::Double;
use crate::gcode::Code;
use crate::gcode::Extruder;
use crate::gcode::Line;
use vstd::prelude::*;

verus! {

/// One thing to be written.
#[derive(Clone, Copy, Debug)]
pub enum Step {
    /// A buffered line, at the flow of the loop it is a bead of, or as it was
    /// metered where it is no loop's bead.
    Replay { index: usize, flow: Option<usize> },
    /// A buffered line with its height set, in place of a `G1 Z` of its own.
    Ride { index: usize, z: Double, raised: bool },
    /// A `G1 Z` of its own, and the feedrate that has to be put back after it.
    MoveZ { z: Double, raised: bool, resume: Option<Double> },
}

/// Where a raised loop is laid: how far above the plane, and at what height.
#[derive(Clone, Copy, Debug)]
pub struct Lift {
    pub offset: Double,
    pub target: Double,
}

/// Where the output leaves the nozzle, and the feedrate it leaves it in.
pub struct Nozzle {
    pub z: Option<Double>,
    pub f: Option<Double>,
}

/// The last height the lines of `from..to` name.
pub open spec fn last_z(buffer: Seq<Buffered>, from: int, to: int) -> Option<Double>
    decreases to - from,
{
    if to <= from {
        None
    } else if buffer[to - 1].z is Some {
        buffer[to - 1].z
    } else {
        last_z(buffer, from, to - 1)
    }
}

/// The last line of `from..to` that decides where the nozzle is next.
pub open spec fn last_position(buffer: Seq<Buffered>, from: int, to: int) -> Option<int>
    decreases to - from,
{
    if to <= from {
        None
    } else if buffer[to - 1].positions {
        Some(to - 1)
    } else {
        last_position(buffer, from, to - 1)
    }
}

/// The two heights are the same.
pub open spec fn level(z: Option<Double>, target: Double) -> bool {
    z is Some && z->0.same(target)
}

/// The line of `from..to` that can take the nozzle to `z` on its way.
///
/// The last move of the range is the one to use, since anything after it would
/// override the height. It has to be a plain move, and never one the slicer put
/// above the plane on purpose: pulling a Z-hop down to printing height would
/// drag the nozzle through what it was lifted to clear. Nothing has to be
/// carried where the range already leaves the nozzle there.
pub open spec fn carrier(
    buffer: Seq<Buffered>,
    from: int,
    to: int,
    z: Double,
    nozzle: Option<Double>,
) -> Option<int> {
    let landing = if last_z(buffer, from, to) is Some {
        last_z(buffer, from, to)
    } else {
        nozzle
    };
    if level(landing, z) {
        None
    } else {
        match last_position(buffer, from, to) {
            Some(at) => if buffer[at].carries && (buffer[at].z is Some ==> buffer[at].z->0.below(z)
                || buffer[at].z->0.same(z)) {
                Some(at)
            } else {
                None
            },
            None => None,
        }
    }
}

/// What is written for one buffered line.
pub open spec fn line_step(
    at: int,
    ride: Option<int>,
    z: Double,
    raised: bool,
    flow: Option<usize>,
) -> Step {
    if ride == Some(at) {
        Step::Ride { index: at as usize, z, raised }
    } else {
        Step::Replay { index: at as usize, flow }
    }
}

/// What is written for the lines of `from..to`, one of which may carry a height.
pub open spec fn line_steps(
    from: int,
    to: int,
    ride: Option<int>,
    z: Double,
    raised: bool,
    flow: Option<usize>,
) -> Seq<Step> {
    Seq::new(
        if to <= from {
            0
        } else {
            (to - from) as nat
        },
        |i: int| line_step(from + i, ride, z, raised, flow),
    )
}

/// Where the nozzle is left by the lines of `from..to`.
pub open spec fn nozzle_after(
    buffer: Seq<Buffered>,
    from: int,
    to: int,
    ride: Option<int>,
    z: Double,
    nozzle: Nozzle,
) -> Nozzle
    decreases to - from,
{
    if to <= from {
        nozzle
    } else {
        let before = nozzle_after(buffer, from, to - 1, ride, z, nozzle);
        let line = buffer[to - 1];
        Nozzle {
            z: if ride == Some(to - 1) {
                Some(z)
            } else if line.z is Some {
                line.z
            } else {
                before.z
            },
            f: if line.f is Some {
                line.f
            } else {
                before.f
            },
        }
    }
}

/// The `G1 Z` that takes the nozzle to a height, where it is not there already.
pub open spec fn z_steps(nozzle: Nozzle, z: Double, raised: bool, rate: Double) -> Seq<Step> {
    if level(nozzle.z, z) {
        seq![]
    } else {
        seq![
            Step::MoveZ {
                z,
                raised,
                resume: if nozzle.f is Some && !nozzle.f->0.same(rate) {
                    nozzle.f
                } else {
                    None
                },
            },
        ]
    }
}

/// The nozzle once it has been taken to a height.
pub open spec fn at_height(nozzle: Nozzle, z: Double) -> Nozzle {
    if level(nozzle.z, z) {
        nozzle
    } else {
        Nozzle { z: Some(z), ..nozzle }
    }
}

/// A loop is laid above the plane: it is raised, and its offset is above zero,
/// which that of a capped loop is not.
pub open spec fn lifted(current: Loop, lift: Lift) -> bool {
    current.raised && Double { bits: 0 }.below(lift.offset)
}

/// The height a loop is laid at.
pub open spec fn target(current: Loop, lift: Lift, plane: Double) -> Double {
    if current.raised {
        lift.target
    } else {
        plane
    }
}

/// What is written for one loop, and where that leaves the nozzle. The travel
/// that reaches the loop comes first and carries the height up if it can; the
/// beads follow, and the last loop of a region brings the nozzle back down on
/// one of its own moves if it can.
#[verifier::opaque]
pub open spec fn loop_steps(
    buffer: Seq<Buffered>,
    loops: Seq<Loop>,
    lifts: Seq<Lift>,
    plane: Double,
    rate: Double,
    k: int,
    nozzle: Nozzle,
) -> (Seq<Step>, Nozzle) {
    let current = loops[k];
    let raise = lifted(current, lifts[k]);
    let z = target(current, lifts[k], plane);
    let lead = current.lead as int;
    let body = current.body as int;
    let end = current.end as int;
    let up = carrier(buffer, lead, body, z, nozzle.z);
    let reached = nozzle_after(buffer, lead, body, up, z, nozzle);
    let settled = at_height(reached, z);
    let down = if k + 1 == loops.len() && raise {
        carrier(buffer, body, end, plane, settled.z)
    } else {
        None
    };
    let left = nozzle_after(buffer, body, end, down, plane, settled);
    (
        line_steps(lead, body, up, z, raise, None) + z_steps(reached, z, raise, rate) + line_steps(
            body,
            end,
            down,
            plane,
            false,
            Some(k as usize),
        ),
        left,
    )
}

/// Where the lines before the first loop end.
pub open spec fn head_of(loops: Seq<Loop>, buffered: nat) -> int {
    if loops.len() > 0 {
        loops[0].lead as int
    } else {
        buffered as int
    }
}

/// What is written for the head of a region and its first `upto` loops, and
/// where that leaves the nozzle.
pub open spec fn steps_upto(
    buffer: Seq<Buffered>,
    loops: Seq<Loop>,
    lifts: Seq<Lift>,
    plane: Double,
    rate: Double,
    nozzle: Nozzle,
    upto: int,
) -> (Seq<Step>, Nozzle)
    decreases upto,
{
    if upto <= 0 {
        let head = head_of(loops, buffer.len());
        (
            line_steps(0, head, None, plane, false, None),
            nozzle_after(buffer, 0, head, None, plane, nozzle),
        )
    } else {
        let (before, reached) = steps_upto(buffer, loops, lifts, plane, rate, nozzle, upto - 1);
        let (more, left) = loop_steps(buffer, loops, lifts, plane, rate, upto - 1, reached);
        (before + more, left)
    }
}

/// The last loop of a region is laid above the plane.
pub open spec fn ends_lifted(loops: Seq<Loop>, lifts: Seq<Lift>) -> bool {
    loops.len() > 0 && lifted(loops.last(), lifts[loops.len() - 1])
}

/// Everything that is written for a region, and where that leaves the nozzle:
/// back on the plane, where the last loop was laid above it.
pub open spec fn scheduled(
    buffer: Seq<Buffered>,
    loops: Seq<Loop>,
    lifts: Seq<Lift>,
    plane: Double,
    rate: Double,
    nozzle: Nozzle,
) -> (Seq<Step>, Nozzle) {
    let (steps, left) = steps_upto(
        buffer,
        loops,
        lifts,
        plane,
        rate,
        nozzle,
        loops.len() as int,
    );
    if ends_lifted(loops, lifts) {
        (steps + z_steps(left, plane, false, rate), at_height(left, plane))
    } else {
        (steps, left)
    }
}

/// How many of the first `upto` loops are laid above the plane.
pub open spec fn count_lifted(loops: Seq<Loop>, lifts: Seq<Lift>, upto: int) -> nat
    decreases upto,
{
    if upto <= 0 {
        0
    } else {
        count_lifted(loops, lifts, upto - 1) + if lifted(loops[upto - 1], lifts[upto - 1]) {
            1nat
        } else {
            0
        }
    }
}

/// How many of the first `upto` loops would have been raised but for what lies
/// over them.
pub open spec fn count_capped(loops: Seq<Loop>, upto: int) -> nat
    decreases upto,
{
    if upto <= 0 {
        0
    } else {
        count_capped(loops, upto - 1) + if loops[upto - 1].raised && loops[upto - 1].capped {
            1nat
        } else {
            0
        }
    }
}

/// What a replayed line is written with.
#[derive(Clone, Copy, Debug)]
pub enum Emission {
    /// The line goes out as it was read.
    Copied,
    /// The line goes out with this in its `E` word.
    Metered(Double),
}

/// Where the output stream of the extruder stands once a line has been written,
/// and what the line carries. `scaled` is the filament it lays down and `sum`
/// the output position with that on top.
pub open spec fn metered(
    extruder: Extruder,
    line: Buffered,
    scaled: Double,
    sum: Double,
) -> (Extruder, Emission) {
    let reset = if line.resets_origin && line.e is Some {
        Extruder { output: line.e->0, ..extruder }
    } else {
        extruder
    };
    match line.delta {
        None => (reset, Emission::Copied),
        Some(_) => {
            let value = if reset.absolute {
                sum
            } else {
                scaled
            };
            let after = if reset.absolute {
                Extruder { output: sum, ..reset }
            } else {
                reset
            };
            if line.e is Some && line.e->0.same(value) {
                (after, Emission::Copied)
            } else {
                (after, Emission::Metered(value))
            }
        },
    }
}

/// Where the pass stands once a line has been let through, and what the line
/// carries.
pub open spec fn through(state: State, line: Line, m: Measures, sum: Double) -> (State, Emission) {
    let passed = State {
        nozzle_z: if line.code == Code::Move && line.z is Some {
            Some(m.z)
        } else {
            state.nozzle_z
        },
        feedrate: if line.f is Some {
            Some(m.f)
        } else {
            state.feedrate
        },
        ..state
    };
    let extruder = state.extruder;
    match pass::demand(extruder, line, m) {
        None => if line.code == Code::SetPosition && line.e is Some {
            (
                State { extruder: Extruder { output: m.e, ..extruder }, ..passed },
                Emission::Copied,
            )
        } else {
            (passed, Emission::Copied)
        },
        Some(delta) => {
            let drawn = pass::drawn_from(extruder, line, m);
            let value = if extruder.absolute {
                sum
            } else {
                delta
            };
            let after = State {
                extruder: if extruder.absolute {
                    Extruder { output: sum, ..drawn }
                } else {
                    drawn
                },
                ..passed
            };
            if value.same(m.e) {
                (after, Emission::Copied)
            } else {
                (after, Emission::Metered(value))
            }
        },
    }
}

impl<'a> Pass<'a> {
    /// The line of `from..to` that can take the nozzle to `z` on its way, or
    /// `None` where a move of its own is needed.
    fn carrier(&self, from: usize, to: usize, z: Double, nozzle: Option<Double>) -> (found: Option<
        usize,
    >)
        requires
            from <= to <= self.buffer@.len(),
        ensures
            ({
                let wanted = carrier(self.buffer@, from as int, to as int, z, nozzle);
                &&& found is Some == wanted is Some
                &&& found is Some ==> found->0 == wanted->0 && from <= found->0 < to
            }),
    {
        let ghost buffer = self.buffer@;
        let mut at = to;
        while at > from && self.buffer[at - 1].z.is_none()
            invariant
                from <= at <= to <= self.buffer@.len(),
                buffer == self.buffer@,
                last_z(buffer, from as int, to as int) == last_z(buffer, from as int, at as int),
            decreases at,
        {
            at = at - 1;
        }
        let landing = if at > from {
            self.buffer[at - 1].z
        } else {
            nozzle
        };
        match landing {
            Some(landing) => {
                if landing.is_same(z) {
                    return None;
                }
            },
            None => {},
        }
        let mut at = to;
        while at > from && !self.buffer[at - 1].positions
            invariant
                from <= at <= to <= self.buffer@.len(),
                buffer == self.buffer@,
                last_position(buffer, from as int, to as int) == last_position(
                    buffer,
                    from as int,
                    at as int,
                ),
            decreases at,
        {
            at = at - 1;
        }
        if at == from {
            return None;
        }
        let line = self.buffer[at - 1];
        let clears = match line.z {
            Some(had) => had.is_below(z) || had.is_same(z),
            None => true,
        };
        if line.carries && clears {
            Some(at - 1)
        } else {
            None
        }
    }

    /// Appends what is written for the lines of `from..to`.
    fn write_lines(
        &self,
        steps: &mut Vec<Step>,
        nozzle: &mut Nozzle,
        from: usize,
        to: usize,
        ride: Option<usize>,
        z: Double,
        raised: bool,
        flow: Option<usize>,
    )
        requires
            from <= to <= self.buffer@.len(),
        ensures
            ({
                let carried = match ride {
                    Some(at) => Some(at as int),
                    None => None,
                };
                &&& final(steps)@ == old(steps)@ + line_steps(
                    from as int,
                    to as int,
                    carried,
                    z,
                    raised,
                    flow,
                )
                &&& *final(nozzle) == nozzle_after(
                    self.buffer@,
                    from as int,
                    to as int,
                    carried,
                    z,
                    *old(nozzle),
                )
            }),
    {
        let ghost carried = match ride {
            Some(at) => Some(at as int),
            None => None,
        };
        let ghost before = steps@;
        let mut at = from;
        assert(before + line_steps(from as int, from as int, carried, z, raised, flow) =~= before);
        while at < to
            invariant
                from <= at <= to <= self.buffer@.len(),
                carried == match ride {
                    Some(at) => Some(at as int),
                    None => None,
                },
                steps@ == before + line_steps(from as int, at as int, carried, z, raised, flow),
                *nozzle == nozzle_after(
                    self.buffer@,
                    from as int,
                    at as int,
                    carried,
                    z,
                    *old(nozzle),
                ),
            decreases to - at,
        {
            let line = self.buffer[at];
            let rides = match ride {
                Some(index) => index == at,
                None => false,
            };
            if rides {
                steps.push(Step::Ride { index: at, z, raised });
                nozzle.z = Some(z);
            } else {
                steps.push(Step::Replay { index: at, flow });
                if line.z.is_some() {
                    nozzle.z = line.z;
                }
            }
            if line.f.is_some() {
                nozzle.f = line.f;
            }
            at = at + 1;
            assert(steps@ =~= before + line_steps(
                from as int,
                at as int,
                carried,
                z,
                raised,
                flow,
            ));
        }
    }

    /// Appends the `G1 Z` that takes the nozzle to `z`, where it is not there
    /// already.
    fn write_z(&self, steps: &mut Vec<Step>, nozzle: &mut Nozzle, z: Double, raised: bool)
        ensures
            final(steps)@ == old(steps)@ + z_steps(*old(nozzle), z, raised, self.z_feedrate),
            *final(nozzle) == at_height(*old(nozzle), z),
    {
        let ghost before = steps@;
        let there = match nozzle.z {
            Some(current) => current.is_same(z),
            None => false,
        };
        if there {
            assert(before + z_steps(*nozzle, z, raised, self.z_feedrate) =~= before);
            return;
        }
        let resume = match nozzle.f {
            Some(previous) => if !previous.is_same(self.z_feedrate) {
                nozzle.f
            } else {
                None
            },
            None => None,
        };
        steps.push(Step::MoveZ { z, raised, resume });
        assert(steps@ =~= before + z_steps(*nozzle, z, raised, self.z_feedrate));
        nozzle.z = Some(z);
    }

    /// Appends what is written for one loop, and says whether it is laid above
    /// the plane.
    fn write_loop(
        &self,
        steps: &mut Vec<Step>,
        nozzle: &mut Nozzle,
        lifts: &Vec<Lift>,
        k: usize,
    ) -> (raise: bool)
        requires
            pass::follows(self.loops@, self.buffer@),
            region::closed(self.loops@, self.buffer@.len()),
            k < self.loops@.len() == lifts@.len(),
        ensures
            raise == lifted(self.loops@[k as int], lifts@[k as int]),
            ({
                let (more, left) = loop_steps(
                    self.buffer@,
                    self.loops@,
                    lifts@,
                    self.state.layer_z,
                    self.z_feedrate,
                    k as int,
                    *old(nozzle),
                );
                &&& final(steps)@ == old(steps)@ + more
                &&& *final(nozzle) == left
            }),
    {
        let ghost before = steps@;
        let ghost start = *nozzle;
        let plane = self.state.layer_z;
        let current = self.loops[k];
        let lift = lifts[k];
        proof {
            region::lemma_span(self.loops@, self.buffer@, k as int);
        }
        let raise = current.raised && Double::zero().is_below(lift.offset);
        let z = if current.raised {
            lift.target
        } else {
            plane
        };
        let up = self.carrier(current.lead, current.body, z, nozzle.z);
        self.write_lines(steps, nozzle, current.lead, current.body, up, z, raise, None);
        // After the lead, so a slicer's own Z-hop restore cannot undo it. A
        // no-op where the carrier already took the nozzle there.
        self.write_z(steps, nozzle, z, raise);
        // The nozzle has to come back down before whatever the slicer prints
        // next, and the travel that leaves the region can carry it just as well
        // as the lead carried the way up.
        let down = if k == self.loops.len() - 1 && raise {
            self.carrier(current.body, current.end, plane, nozzle.z)
        } else {
            None
        };
        self.write_lines(steps, nozzle, current.body, current.end, down, plane, false, Some(k));
        proof {
            reveal(loop_steps);
            assert(steps@ =~= before + loop_steps(
                self.buffer@,
                self.loops@,
                lifts@,
                plane,
                self.z_feedrate,
                k as int,
                start,
            ).0);
        }
        raise
    }

    /// Turns a complete region into what is to be written, in order, and counts
    /// its loops.
    pub fn schedule(&mut self, lifts: &Vec<Lift>) -> (steps: Vec<Step>)
        requires
            old(self).valid(),
            region::closed(old(self).loops@, old(self).buffer@.len()),
            lifts@.len() == old(self).loops@.len(),
            old(self).loops_seen + old(self).loops@.len() <= usize::MAX,
            old(self).raised + old(self).loops@.len() <= usize::MAX,
            old(self).capped + old(self).loops@.len() <= usize::MAX,
        ensures
            ({
                let (written, left) = scheduled(
                    old(self).buffer@,
                    old(self).loops@,
                    lifts@,
                    old(self).state.layer_z,
                    old(self).z_feedrate,
                    (Nozzle { z: old(self).state.nozzle_z, f: old(self).state.feedrate }),
                );
                &&& steps@ == written
                &&& *final(self) == (Pass {
                    state: State { nozzle_z: left.z, feedrate: left.f, ..old(self).state },
                    loops_seen: (old(self).loops_seen + old(self).loops@.len()) as usize,
                    raised: (old(self).raised + count_lifted(
                        old(self).loops@,
                        lifts@,
                        old(self).loops@.len() as int,
                    )) as usize,
                    capped: (old(self).capped + count_capped(
                        old(self).loops@,
                        old(self).loops@.len() as int,
                    )) as usize,
                    ..*old(self)
                })
            }),
    {
        let ghost buffer = self.buffer@;
        let ghost loops = self.loops@;
        let plane = self.state.layer_z;
        let ghost rate = self.z_feedrate;
        let mut steps: Vec<Step> = Vec::new();
        let mut nozzle = Nozzle { z: self.state.nozzle_z, f: self.state.feedrate };
        let ghost start = nozzle;
        proof {
            if loops.len() > 0 {
                region::lemma_span(loops, buffer, 0);
            }
        }
        let head = if self.loops.len() > 0 {
            self.loops[0].lead
        } else {
            self.buffer.len()
        };
        self.write_lines(&mut steps, &mut nozzle, 0, head, None, plane, false, None);
        assert(steps@ =~= line_steps(0, head as int, None, plane, false, None));
        let mut last_raised = false;
        let mut raised: usize = 0;
        let mut capped: usize = 0;
        let mut k: usize = 0;
        while k < self.loops.len()
            invariant
                *self == *old(self),
                self.valid(),
                region::closed(loops, buffer.len()),
                buffer == self.buffer@,
                loops == self.loops@,
                plane == self.state.layer_z,
                rate == self.z_feedrate,
                lifts@.len() == loops.len(),
                k <= loops.len(),
                raised <= k,
                capped <= k,
                (steps@, nozzle) == steps_upto(
                    buffer,
                    loops,
                    lifts@,
                    plane,
                    rate,
                    start,
                    k as int,
                ),
                raised == count_lifted(loops, lifts@, k as int),
                capped == count_capped(loops, k as int),
                last_raised == (k > 0 && lifted(loops[k - 1], lifts@[k - 1])),
            decreases loops.len() - k,
        {
            let current = self.loops[k];
            let raise = self.write_loop(&mut steps, &mut nozzle, lifts, k);
            last_raised = raise;
            if raise {
                raised = raised + 1;
            }
            if current.raised && current.capped {
                capped = capped + 1;
            }
            k = k + 1;
        }
        if last_raised {
            self.write_z(&mut steps, &mut nozzle, plane, false);
        }
        self.state.nozzle_z = nozzle.z;
        self.state.feedrate = nozzle.f;
        self.loops_seen = self.loops_seen + self.loops.len();
        self.raised = self.raised + raised;
        self.capped = self.capped + capped;
        steps
    }

    /// Meters a buffered line that is being written.
    pub fn meter(&mut self, index: usize, scaled: Double, sum: Double) -> (emission: Emission)
        requires
            index < old(self).buffer@.len(),
        ensures
            (final(self).state.extruder, emission) == metered(
                old(self).state.extruder,
                old(self).buffer@[index as int],
                scaled,
                sum,
            ),
            *final(self) == (Pass {
                state: State { extruder: final(self).state.extruder, ..old(self).state },
                ..*old(self)
            }),
    {
        let line = self.buffer[index];
        match line.e {
            Some(value) => {
                if line.resets_origin {
                    self.state.extruder.advance_origin(value);
                }
            },
            None => {},
        }
        match line.delta {
            None => Emission::Copied,
            Some(_) => {
                let value = self.state.extruder.advance(scaled, sum);
                // Whether the line has to be rewritten is whether the value it
                // should now carry differs from the one it was written with.
                match line.e {
                    Some(e) => if e.is_same(value) {
                        Emission::Copied
                    } else {
                        Emission::Metered(value)
                    },
                    None => Emission::Metered(value),
                }
            },
        }
    }

    /// Meters a line that is let through. `sum` is the output position with the
    /// filament it asks for on top.
    pub fn meter_through(&mut self, line: &Line, m: &Measures, sum: Double) -> (emission: Emission)
        ensures
            (final(self).state, emission) == through(old(self).state, *line, *m, sum),
            *final(self) == (Pass { state: final(self).state, ..*old(self) }),
    {
        if line.is_move() && line.z.is_some() {
            self.state.nozzle_z = Some(m.z);
        }
        if line.f.is_some() {
            self.state.feedrate = Some(m.f);
        }
        if line.e.is_none() {
            return Emission::Copied;
        }
        if line.code == Code::SetPosition {
            self.state.extruder.advance_origin(m.e);
        }
        if !line.draws() {
            return Emission::Copied;
        }
        let delta = self.state.extruder.observe(m.e, m.fed);
        let value = self.state.extruder.advance(delta, sum);
        if value.is_same(m.e) {
            Emission::Copied
        } else {
            Emission::Metered(value)
        }
    }

    /// Forgets a region that has been written.
    pub fn clear(&mut self)
        requires
            old(self).survey.valid(),
        ensures
            final(self).valid(),
            final(self).buffer@.len() == 0,
            final(self).texts@.len() == 0,
            final(self).loops@.len() == 0,
            *final(self) == (Pass {
                texts: final(self).texts,
                buffer: final(self).buffer,
                loops: final(self).loops,
                state: State { travelled: false, ..old(self).state },
                ..*old(self)
            }),
    {
        self.texts.clear();
        self.buffer.clear();
        self.loops.clear();
        self.state.travelled = false;
        proof {
            reveal(pass::follows);
        }
    }
}

/// The lines that some steps write, in order.
pub open spec fn indices(steps: Seq<Step>) -> Seq<int>
    decreases steps.len(),
{
    if steps.len() == 0 {
        seq![]
    } else {
        let before = indices(steps.drop_last());
        match steps.last() {
            Step::Replay { index, .. } => before.push(index as int),
            Step::Ride { index, .. } => before.push(index as int),
            Step::MoveZ { .. } => before,
        }
    }
}

proof fn lemma_indices_add(a: Seq<Step>, b: Seq<Step>)
    ensures
        indices(a + b) == indices(a) + indices(b),
    decreases b.len(),
{
    if b.len() == 0 {
        assert(a + b =~= a);
        assert(indices(a) + indices(b) =~= indices(a));
    } else {
        lemma_indices_add(a, b.drop_last());
        assert((a + b).drop_last() =~= a + b.drop_last());
        assert(indices(a + b) =~= indices(a) + indices(b));
    }
}

/// The numbers of `from..to`, in order.
pub open spec fn all_of(from: int, to: int) -> Seq<int> {
    Seq::new(
        if to <= from {
            0
        } else {
            (to - from) as nat
        },
        |i: int| from + i,
    )
}

proof fn lemma_line_indices(
    from: int,
    to: int,
    ride: Option<int>,
    z: Double,
    raised: bool,
    flow: Option<usize>,
)
    requires
        0 <= from <= to <= usize::MAX,
    ensures
        indices(line_steps(from, to, ride, z, raised, flow)) == all_of(from, to),
    decreases to - from,
{
    let steps = line_steps(from, to, ride, z, raised, flow);
    if from < to {
        lemma_line_indices(from, to - 1, ride, z, raised, flow);
        assert(steps.drop_last() =~= line_steps(from, to - 1, ride, z, raised, flow));
        assert(indices(steps) =~= all_of(from, to));
    } else {
        assert(indices(steps) =~= all_of(from, to));
    }
}

proof fn lemma_z_indices(nozzle: Nozzle, z: Double, raised: bool, rate: Double)
    ensures
        indices(z_steps(nozzle, z, raised, rate)) == Seq::<int>::empty(),
{
    let steps = z_steps(nozzle, z, raised, rate);
    if steps.len() > 0 {
        assert(steps.drop_last() =~= seq![]);
        assert(indices(steps.drop_last()) =~= seq![]);
    }
}

/// Every buffered line is written exactly once, in the order it was read,
/// whatever is raised and whatever carries it.
pub proof fn every_line_is_written_once_in_order(
    buffer: Seq<Buffered>,
    loops: Seq<Loop>,
    lifts: Seq<Lift>,
    plane: Double,
    rate: Double,
    nozzle: Nozzle,
)
    requires
        pass::follows(loops, buffer),
        region::closed(loops, buffer.len()),
        buffer.len() <= usize::MAX,
    ensures
        indices(scheduled(buffer, loops, lifts, plane, rate, nozzle).0) == all_of(
            0,
            buffer.len() as int,
        ),
{
    lemma_indices_upto(buffer, loops, lifts, plane, rate, nozzle, loops.len() as int);
    let (steps, left) = steps_upto(
        buffer,
        loops,
        lifts,
        plane,
        rate,
        nozzle,
        loops.len() as int,
    );
    if ends_lifted(loops, lifts) {
        lemma_indices_add(steps, z_steps(left, plane, false, rate));
        lemma_z_indices(left, plane, false, rate);
        assert(indices(steps) + Seq::<int>::empty() =~= indices(steps));
    }
}

/// Where the lines of the first `upto` loops end.
spec fn covered(loops: Seq<Loop>, buffered: nat, upto: int) -> int {
    if upto < loops.len() {
        loops[upto].lead as int
    } else {
        buffered as int
    }
}

proof fn lemma_indices_upto(
    buffer: Seq<Buffered>,
    loops: Seq<Loop>,
    lifts: Seq<Lift>,
    plane: Double,
    rate: Double,
    nozzle: Nozzle,
    upto: int,
)
    requires
        pass::follows(loops, buffer),
        region::closed(loops, buffer.len()),
        buffer.len() <= usize::MAX,
        0 <= upto <= loops.len(),
    ensures
        indices(steps_upto(buffer, loops, lifts, plane, rate, nozzle, upto).0) == all_of(
            0,
            covered(loops, buffer.len(), upto),
        ),
    decreases upto,
{
    if upto == 0 {
        let head = head_of(loops, buffer.len());
        if loops.len() > 0 {
            region::lemma_span(loops, buffer, 0);
        }
        lemma_line_indices(0, head, None, plane, false, None);
    } else {
        lemma_indices_upto(buffer, loops, lifts, plane, rate, nozzle, upto - 1);
        let k = upto - 1;
        let (before, reached) = steps_upto(buffer, loops, lifts, plane, rate, nozzle, k);
        let (more, left) = loop_steps(buffer, loops, lifts, plane, rate, k, reached);
        lemma_loop_indices(buffer, loops, lifts, plane, rate, k, reached);
        lemma_indices_add(before, more);
        let start = loops[k].lead as int;
        let end = loops[k].end as int;
        region::lemma_span(loops, buffer, k);
        assert(all_of(0, start) + all_of(start, end) =~= all_of(0, end));
    }
}

proof fn lemma_loop_indices(
    buffer: Seq<Buffered>,
    loops: Seq<Loop>,
    lifts: Seq<Lift>,
    plane: Double,
    rate: Double,
    k: int,
    nozzle: Nozzle,
)
    requires
        pass::follows(loops, buffer),
        region::closed(loops, buffer.len()),
        buffer.len() <= usize::MAX,
        0 <= k < loops.len(),
    ensures
        loops[k].lead <= loops[k].body <= loops[k].end <= buffer.len(),
        indices(loop_steps(buffer, loops, lifts, plane, rate, k, nozzle).0) == all_of(
            loops[k].lead as int,
            loops[k].end as int,
        ),
{
    region::lemma_span(loops, buffer, k);
    reveal(loop_steps);
    let current = loops[k];
    let raise = lifted(current, lifts[k]);
    let z = target(current, lifts[k], plane);
    let lead = current.lead as int;
    let body = current.body as int;
    let end = current.end as int;
    let up = carrier(buffer, lead, body, z, nozzle.z);
    let reached = nozzle_after(buffer, lead, body, up, z, nozzle);
    let settled = at_height(reached, z);
    let down = if k + 1 == loops.len() && raise {
        carrier(buffer, body, end, plane, settled.z)
    } else {
        None
    };
    let a = line_steps(lead, body, up, z, raise, None);
    let b = z_steps(reached, z, raise, rate);
    let c = line_steps(body, end, down, plane, false, Some(k as usize));
    lemma_line_indices(lead, body, up, z, raise, None);
    lemma_z_indices(reached, z, raise, rate);
    lemma_line_indices(body, end, down, plane, false, Some(k as usize));
    lemma_indices_add(a, b);
    lemma_indices_add(a + b, c);
    assert(all_of(lead, body) + Seq::<int>::empty() + all_of(body, end) =~= all_of(lead, end));
}

/// A region that ends above the plane leaves the nozzle back on it.
pub proof fn a_raised_end_comes_back_down(
    buffer: Seq<Buffered>,
    loops: Seq<Loop>,
    lifts: Seq<Lift>,
    plane: Double,
    rate: Double,
    nozzle: Nozzle,
)
    requires
        ends_lifted(loops, lifts),
        plane.number(),
    ensures
        level(scheduled(buffer, loops, lifts, plane, rate, nozzle).1.z, plane),
{
}

/// Nothing is ridden that lays a bead: the line that carries a height is a plain
/// move that names no filament.
pub proof fn only_plain_moves_are_ridden(
    buffer: Seq<Buffered>,
    from: int,
    to: int,
    z: Double,
    nozzle: Option<Double>,
)
    requires
        carrier(buffer, from, to, z, nozzle) is Some,
    ensures
        buffer[carrier(buffer, from, to, z, nozzle)->0].carries,
{
}

} // verus!
