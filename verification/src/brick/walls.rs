//! Which lines of a visible wall are drawn inward, and to which corner of the
//! offset loop each goes.
//!
//! Only the visible wall is ever moved. It gains material like every other
//! wall, and a bead widens about its own centre, so left alone that material
//! would push the surface outward. Moving the loop inward by half the width it
//! gains sends the gain into the joint behind it instead and leaves the
//! commanded outer face exactly where the slicer drew it.

use super::pass::Buffered;
use super::pass::Loop;
use super::pass::Pass;
use super::region;
use super::schedule;
use crate::double::Double;
use vstd::prelude::*;

verus! {

/// Beads a loop has to hold before it has an inside.
pub const FEWEST_BEADS: usize = 3;

/// The lines of a loop that have to move with it.
pub struct Course {
    /// The beads, in print order.
    pub beads: Vec<usize>,
    /// The line whose end the loop starts from, and `None` where it starts from
    /// where the region does.
    pub entry: Option<usize>,
    /// The travel that reaches the loop, which has to land where the loop now
    /// starts, or its first bead is laid from the old corner.
    pub travel: Option<usize>,
}

/// A line that moves, and the corner of the offset loop it ends at.
#[derive(Clone, Copy, Debug)]
pub struct Shift {
    pub line: usize,
    pub corner: usize,
}

/// The beads among the lines of `from..to`, in order.
pub open spec fn beads_of(buffer: Seq<Buffered>, from: int, to: int) -> Seq<usize>
    decreases to - from,
{
    if to <= from {
        seq![]
    } else if buffer[to - 1].extrudes {
        beads_of(buffer, from, to - 1).push((to - 1) as usize)
    } else {
        beads_of(buffer, from, to - 1)
    }
}

/// The loop can be drawn in: it is the visible wall, and it has an inside.
pub open spec fn can_move(buffer: Seq<Buffered>, current: Loop) -> bool {
    current.external && beads_of(buffer, current.body as int, current.end as int).len()
        >= FEWEST_BEADS
}

/// Where each line of a course goes on an offset loop of `corners` corners: each
/// bead runs from one corner to the next, round to the first, and the travel
/// lands on the first.
pub open spec fn shifts_of(beads: Seq<usize>, travel: Option<usize>, corners: nat) -> Seq<Shift> {
    let walked = Seq::new(
        beads.len(),
        |step: int|
            Shift {
                line: beads[step],
                corner: ((step + 1) % (corners as int)) as usize,
            },
    );
    match travel {
        Some(line) => walked.push(Shift { line, corner: 0 }),
        None => walked,
    }
}

proof fn lemma_beads(buffer: Seq<Buffered>, from: int, to: int)
    requires
        0 <= from,
        to <= buffer.len() <= usize::MAX,
    ensures
        forall|i: int|
            0 <= i < beads_of(buffer, from, to).len() ==> from <= #[trigger] beads_of(
                buffer,
                from,
                to,
            )[i] < to && buffer[beads_of(buffer, from, to)[i] as int].extrudes,
        forall|i: int, j: int|
            0 <= i < j < beads_of(buffer, from, to).len() ==> beads_of(buffer, from, to)[i]
                < beads_of(buffer, from, to)[j],
        from <= to ==> beads_of(buffer, from, to).len() <= to - from,
    decreases to - from,
{
    if from < to {
        lemma_beads(buffer, from, to - 1);
    }
}

/// No line of a course is asked to go to two corners: the beads are lines of
/// their own, and the travel comes before them all.
pub proof fn a_line_moves_to_one_corner(
    buffer: Seq<Buffered>,
    current: Loop,
    corners: nat,
    a: int,
    b: int,
)
    requires
        buffer.len() <= usize::MAX,
        current.lead <= current.body <= current.end <= buffer.len(),
        ({
            let beads = beads_of(buffer, current.body as int, current.end as int);
            let shifts = shifts_of(beads, travel_of(buffer, current), corners);
            0 <= a < b < shifts.len()
        }),
    ensures
        ({
            let beads = beads_of(buffer, current.body as int, current.end as int);
            let shifts = shifts_of(beads, travel_of(buffer, current), corners);
            shifts[a].line != shifts[b].line
        }),
{
    lemma_beads(buffer, current.body as int, current.end as int);
    lemma_last_position(buffer, current.lead as int, current.body as int);
}

/// The travel that reaches a loop.
pub open spec fn travel_of(buffer: Seq<Buffered>, current: Loop) -> Option<usize> {
    match schedule::last_position(buffer, current.lead as int, current.body as int) {
        Some(at) => Some(at as usize),
        None => None,
    }
}

proof fn lemma_last_position(buffer: Seq<Buffered>, from: int, to: int)
    ensures
        schedule::last_position(buffer, from, to) matches Some(at) ==> from <= at < to
            && buffer[at].positions,
    decreases to - from,
{
    if from < to {
        lemma_last_position(buffer, from, to - 1);
    }
}

impl<'a> Pass<'a> {
    /// Whether the visible walls of this layer are drawn in at all. Those laid
    /// on the build plate are not: there is no staggered joint to close.
    pub fn draws_walls_in(&self, inward: Double) -> (draws: bool)
        ensures
            draws == (Double { bits: 0 }.below(inward) && region::layers_up(
                self.survey.object_starts@,
                self.state.layer as int,
            ) > 0),
    {
        Double::zero().is_below(inward) && self.steps() > 0
    }

    /// The lines that move with a loop, or `None` where the loop stays where it
    /// is: it is not the visible wall, or it has too few points to have an
    /// inside.
    pub fn course(&self, k: usize) -> (course: Option<Course>)
        requires
            self.valid(),
            region::closed(self.loops@, self.buffer@.len()),
            k < self.loops@.len(),
        ensures
            course is Some == can_move(self.buffer@, self.loops@[k as int]),
            course is Some ==> {
                let current = self.loops@[k as int];
                &&& course->0.beads@ == beads_of(
                    self.buffer@,
                    current.body as int,
                    current.end as int,
                )
                &&& course->0.entry == if current.body == 0 {
                    None
                } else {
                    Some((current.body - 1) as usize)
                }
                &&& course->0.travel == travel_of(self.buffer@, current)
            },
    {
        let current = self.loops[k];
        proof {
            region::lemma_span(self.loops@, self.buffer@, k as int);
        }
        if !current.external {
            return None;
        }
        let mut beads: Vec<usize> = Vec::new();
        let mut at = current.body;
        while at < current.end
            invariant
                current.body <= at <= current.end <= self.buffer@.len(),
                beads@ == beads_of(self.buffer@, current.body as int, at as int),
            decreases current.end - at,
        {
            if self.buffer[at].extrudes {
                beads.push(at);
            }
            at = at + 1;
        }
        if beads.len() < FEWEST_BEADS {
            return None;
        }
        let mut at = current.body;
        while at > current.lead && !self.buffer[at - 1].positions
            invariant
                current.lead <= at <= current.body <= self.buffer@.len(),
                schedule::last_position(
                    self.buffer@,
                    current.lead as int,
                    current.body as int,
                ) == schedule::last_position(self.buffer@, current.lead as int, at as int),
            decreases at,
        {
            at = at - 1;
        }
        let travel = if at > current.lead {
            Some(at - 1)
        } else {
            None
        };
        let entry = if current.body == 0 {
            None
        } else {
            Some(current.body - 1)
        };
        Some(Course { beads, entry, travel })
    }
}

impl Course {
    /// Where each line of the course goes on an offset loop of `corners`
    /// corners.
    pub fn shifts(&self, corners: usize) -> (shifts: Vec<Shift>)
        requires
            corners > 0,
            self.beads@.len() < usize::MAX,
        ensures
            shifts@ == shifts_of(self.beads@, self.travel, corners as nat),
    {
        let mut shifts: Vec<Shift> = Vec::new();
        let mut step: usize = 0;
        while step < self.beads.len()
            invariant
                corners > 0,
                self.beads@.len() < usize::MAX,
                step <= self.beads@.len(),
                shifts@.len() == step,
                forall|i: int|
                    0 <= i < step ==> #[trigger] shifts@[i] == (Shift {
                        line: self.beads@[i],
                        corner: ((i + 1) % (corners as int)) as usize,
                    }),
            decreases self.beads@.len() - step,
        {
            shifts.push(Shift { line: self.beads[step], corner: (step + 1) % corners });
            step = step + 1;
        }
        match self.travel {
            Some(line) => {
                shifts.push(Shift { line, corner: 0 });
            },
            None => {},
        }
        assert(shifts@ =~= shifts_of(self.beads@, self.travel, corners as nat));
        shifts
    }
}

} // verus!
