//! What a region's loops are to each other and to the layers around them.

use super::pass;
use super::pass::Arc;
use super::pass::Buffered;
use super::pass::Loop;
use super::pass::Outline;
use super::pass::Pass;
use crate::double::Double;
use crate::footprint::Cells;
use crate::scan;
use vstd::prelude::*;

verus! {

/// A bead of a loop, with the place it is laid at.
pub open spec fn lays(line: Buffered) -> bool {
    line.extrudes && line.xy is Some
}

/// The extent with one more point in it.
pub open spec fn widened(outline: Option<Outline>, x: Double, y: Double) -> Outline {
    match outline {
        Some(outline) => Outline {
            left: outline.left.lesser(x),
            bottom: outline.bottom.lesser(y),
            right: outline.right.greater(x),
            top: outline.top.greater(y),
        },
        None => Outline { left: x, bottom: y, right: x, top: y },
    }
}

/// The extent of what some lines lay down.
pub open spec fn outline_of(buffer: Seq<Buffered>, from: int, to: int) -> Option<Outline>
    decreases to - from,
{
    if to <= from {
        None
    } else {
        let before = outline_of(buffer, from, to - 1);
        let line = buffer[to - 1];
        if lays(line) {
            Some(widened(before, (line.xy->0).0, (line.xy->0).1))
        } else {
            before
        }
    }
}

/// How many points some lines lay down.
pub open spec fn points_of(buffer: Seq<Buffered>, from: int, to: int) -> nat
    decreases to - from,
{
    if to <= from {
        0
    } else {
        points_of(buffer, from, to - 1) + if lays(buffer[to - 1]) {
            1nat
        } else {
            0
        }
    }
}

/// Where a loop's lines end: where the next loop's lead starts, and with the
/// buffer for the last loop.
pub open spec fn end_of(loops: Seq<Loop>, buffered: nat, k: int) -> int {
    if k + 1 < loops.len() {
        loops[k + 1].lead as int
    } else {
        buffered as int
    }
}

/// A loop once its region is complete.
pub open spec fn measured(loops: Seq<Loop>, buffer: Seq<Buffered>, k: int) -> Loop {
    let end = end_of(loops, buffer.len(), k);
    Loop {
        end: end as usize,
        outline: outline_of(buffer, loops[k].body as int, end),
        points: points_of(buffer, loops[k].body as int, end) as usize,
        ..loops[k]
    }
}

/// Every loop of a region knows where it ends.
#[verifier::opaque]
pub open spec fn closed(loops: Seq<Loop>, buffered: nat) -> bool {
    forall|k: int| 0 <= k < loops.len() ==> (#[trigger] loops[k]).end == end_of(loops, buffered, k)
}

/// The lines of a loop lie in the buffer, its lead before its beads.
pub proof fn lemma_span(loops: Seq<Loop>, buffer: Seq<Buffered>, k: int)
    requires
        pass::follows(loops, buffer),
        closed(loops, buffer.len()),
        0 <= k < loops.len(),
    ensures
        loops[k].lead <= loops[k].body < loops[k].end <= buffer.len(),
        loops[k].end == end_of(loops, buffer.len(), k),
{
    reveal(pass::follows);
    reveal(closed);
    if k + 1 < loops.len() {
        assert(loops[k].body < loops[k + 1].lead);
        assert(loops[k + 1].body < buffer.len());
    }
}

/// Loops that span what they spanned before still follow each other and still
/// know where they end.
pub proof fn lemma_same_spans(before: Seq<Loop>, after: Seq<Loop>, buffer: Seq<Buffered>)
    requires
        pass::follows(before, buffer),
        closed(before, buffer.len()),
        after.len() == before.len(),
        forall|k: int|
            0 <= k < before.len() ==> (#[trigger] after[k]).lead == before[k].lead && after[k].body
                == before[k].body && after[k].end == before[k].end,
    ensures
        pass::follows(after, buffer),
        closed(after, buffer.len()),
{
    reveal(pass::follows);
    reveal(closed);
    assert forall|k: int| 0 <= k < after.len() implies (#[trigger] after[k]).end == end_of(
        after,
        buffer.len(),
        k,
    ) by {
        assert(before[k].end == end_of(before, buffer.len(), k));
        if k + 1 < after.len() {
            assert(after[k + 1].lead == before[k + 1].lead);
        }
    }
}

/// Whether two of `count` loops run beside each other, the later one second.
pub open spec fn beside(near: Seq<bool>, count: nat, a: int, b: int) -> bool {
    near[a * count + b]
}

/// A loop shows where its contour already has a loop that does.
pub open spec fn second_face(loops: Seq<Loop>, opened: int, k: int) -> bool {
    loops[k].external && exists|at: int| opened <= at < k && (#[trigger] loops[at]).external
}

/// A loop joins the contour that opened at `opened`: it runs beside one of its
/// loops, and is not a second visible wall.
pub open spec fn joins(loops: Seq<Loop>, near: Seq<bool>, opened: int, k: int) -> bool {
    &&& k > 0
    &&& !second_face(loops, opened, k)
    &&& exists|at: int| opened <= at < k && #[trigger] beside(near, loops.len(), at, k)
}

/// How many contours the first `upto` loops make, and which loop opened the
/// last of them.
pub open spec fn grouping(loops: Seq<Loop>, near: Seq<bool>, upto: int) -> (nat, int)
    decreases upto,
{
    if upto <= 0 {
        (0, 0)
    } else {
        let (contours, opened) = grouping(loops, near, upto - 1);
        if joins(loops, near, opened, upto - 1) {
            (contours, opened)
        } else {
            (contours + 1, upto - 1)
        }
    }
}

/// Which contour a loop belongs to.
pub open spec fn contour_of(loops: Seq<Loop>, near: Seq<bool>, k: int) -> nat {
    grouping(loops, near, k + 1).0
}

pub proof fn lemma_grouping(loops: Seq<Loop>, near: Seq<bool>, upto: int)
    requires
        0 <= upto,
    ensures
        0 <= grouping(loops, near, upto).0 <= upto,
        0 <= grouping(loops, near, upto).1 <= upto,
        upto > 0 ==> grouping(loops, near, upto).0 >= 1,
        upto > 0 ==> grouping(loops, near, upto).1 < upto,
    decreases upto,
{
    if upto > 0 {
        lemma_grouping(loops, near, upto - 1);
    }
}

/// Contours are numbered in print order: a loop belongs to the contour of the
/// loop before it or opens the next one.
pub proof fn a_contours_loops_are_contiguous(loops: Seq<Loop>, near: Seq<bool>, k: int)
    requires
        0 < k < loops.len(),
    ensures
        contour_of(loops, near, k) == contour_of(loops, near, k - 1) || contour_of(loops, near, k)
            == contour_of(loops, near, k - 1) + 1,
{
}

/// One wall shows one visible loop: no two visible loops of a region share a
/// contour.
pub proof fn a_contour_shows_one_visible_loop(loops: Seq<Loop>, near: Seq<bool>, a: int, b: int)
    requires
        0 <= a < b < loops.len(),
        loops[a].external,
        loops[b].external,
    ensures
        contour_of(loops, near, a) < contour_of(loops, near, b),
{
    lemma_grouping(loops, near, b);
    let (contours, opened) = grouping(loops, near, b);
    lemma_opened_covers(loops, near, a + 1, b);
    if opened <= a {
        assert(loops[a].external);
        assert(second_face(loops, opened, b));
    }
}

/// Contours never count down, and a loop before the open contour belongs to an
/// earlier one.
proof fn lemma_opened_covers(loops: Seq<Loop>, near: Seq<bool>, a: int, b: int)
    requires
        0 <= a <= b,
    ensures
        grouping(loops, near, a).0 <= grouping(loops, near, b).0,
        a > 0 && grouping(loops, near, b).1 > a - 1 ==> grouping(loops, near, a).0 < grouping(
            loops,
            near,
            b,
        ).0,
    decreases b - a,
{
    if a < b {
        lemma_opened_covers(loops, near, a, b - 1);
    } else {
        lemma_grouping(loops, near, a);
    }
}

/// Points sampled from a loop when testing it against another.
///
/// Every point of an offset loop is a witness, so one would usually do. A
/// handful covers the loop that runs on past the end of the one it followed,
/// which is what a wall does wherever it widens.
pub const PROBES: usize = 16;

/// How many points apart the samples of a loop are.
pub open spec fn stride(points: nat) -> nat {
    let every = (points + (PROBES as nat) - 1) as nat / (PROBES as nat);
    if every == 0 {
        1
    } else {
        every
    }
}

/// Every `every`-th of the lines of `from..to` that lay a point, from the first.
pub open spec fn sampled(buffer: Seq<Buffered>, from: int, to: int, every: nat) -> Seq<usize>
    decreases to - from,
{
    if to <= from {
        seq![]
    } else {
        let before = sampled(buffer, from, to - 1, every);
        if lays(buffer[to - 1]) && points_of(buffer, from, to - 1) % every == 0 {
            before.push((to - 1) as usize)
        } else {
            before
        }
    }
}

/// One move of a loop's path.
#[derive(Clone, Copy, Debug)]
pub struct Segment {
    pub from: (Double, Double),
    pub to: (Double, Double),
    pub arc: Option<Arc>,
}

/// Where the nozzle stands before a line: where the line before it ends, and
/// where the region starts for the first.
pub open spec fn place_before(
    buffer: Seq<Buffered>,
    entry: (Double, Double),
    at: int,
) -> (Double, Double) {
    if at > 0 {
        buffer[at - 1].at
    } else {
        entry
    }
}

/// The moves of `from..to` that lay a bead.
pub open spec fn segments_of(
    buffer: Seq<Buffered>,
    entry: (Double, Double),
    from: int,
    to: int,
) -> Seq<Segment>
    decreases to - from,
{
    if to <= from {
        seq![]
    } else {
        let before = segments_of(buffer, entry, from, to - 1);
        let line = buffer[to - 1];
        if line.extrudes {
            before.push(
                Segment {
                    from: place_before(buffer, entry, to - 1),
                    to: line.at,
                    arc: line.arc,
                },
            )
        } else {
            before
        }
    }
}

/// How many of some cells a set holds.
pub open spec fn held(cells: Seq<u32>, set: Option<Set<u32>>) -> nat
    decreases cells.len(),
{
    if cells.len() == 0 {
        0
    } else {
        held(cells.drop_last(), set) + if set is Some && set->0.contains(cells.last()) {
            1nat
        } else {
            0
        }
    }
}

/// More than three quarters of a loop's path falls in a set.
///
/// The threshold is high on purpose. Capping a loop whose column carries on
/// above would leave the layer above it metered against a step that is no
/// longer there, so only a loop that has genuinely run out is worth flattening.
pub open spec fn mostly(path: Seq<u32>, set: Option<Set<u32>>) -> bool {
    path.len() > 0 && 4 * held(path, set) > 3 * path.len()
}

/// The layer an object that is being printed started at.
pub open spec fn start_of(starts: Seq<usize>, layer: int, upto: int) -> int
    decreases upto,
{
    if upto <= 0 {
        0
    } else if starts[upto - 1] <= layer {
        starts[upto - 1] as int
    } else {
        start_of(starts, layer, upto - 1)
    }
}

/// Layers printed since the object's first.
pub open spec fn layers_up(starts: Seq<usize>, layer: int) -> int {
    layer - start_of(starts, layer, starts.len() as int)
}

proof fn lemma_start_of(starts: Seq<usize>, layer: int, upto: int)
    requires
        0 <= layer,
        0 <= upto <= starts.len(),
    ensures
        0 <= start_of(starts, layer, upto) <= layer,
    decreases upto,
{
    if upto > 0 {
        lemma_start_of(starts, layer, upto - 1);
    }
}

/// Where nothing stands on the walls of a layer, where they have nothing under
/// them, and where those of the layer below had nothing under them. Two layers
/// back is as far as the arithmetic looks: a column older than the climb takes
/// the same offset however old it is.
pub open spec fn answers(pass: Pass) -> (Option<Set<u32>>, Option<Set<u32>>, Option<Set<u32>>) {
    let layer = pass.state.layer as int;
    (
        scan::answer(pass.survey.uncovered@, layer),
        scan::answer(pass.survey.unsupported@, layer),
        if layer > 0 {
            scan::answer(pass.survey.unsupported@, layer - 1)
        } else {
            None
        },
    )
}

/// A loop settled against the layers either side of it, given the cells its
/// path runs through.
pub open spec fn marked(pass: Pass, current: Loop, path: Seq<u32>) -> Loop {
    let (above, here, below) = answers(pass);
    Loop {
        capped: pass.survey.object_tops@.contains(pass.state.layer) || mostly(path, above),
        steps: if mostly(path, here) {
            0
        } else if mostly(path, below) {
            1
        } else {
            layers_up(pass.survey.object_starts@, pass.state.layer as int) as usize
        },
        ..current
    }
}

/// Counts the cells of a path that a set holds.
fn count(path: &Vec<u32>, set: Option<&Cells>) -> (found: usize)
    requires
        set is Some ==> set->0.settled(),
    ensures
        set is Some ==> found == held(path@, Some(set->0@)),
        set is None ==> found == held(path@, None),
        found <= path@.len(),
{
    let ghost view = match set {
        Some(cells) => Some(cells@),
        None => None,
    };
    let mut found: usize = 0;
    let mut i: usize = 0;
    assert(path@.take(0) =~= seq![]);
    while i < path.len()
        invariant
            i <= path.len(),
            found <= i,
            set is Some ==> set->0.settled(),
            view == match set {
                Some(cells) => Some(cells@),
                None => None,
            },
            found == held(path@.take(i as int), view),
        decreases path.len() - i,
    {
        assert(path@.take(i + 1).drop_last() =~= path@.take(i as int));
        match set {
            Some(cells) => {
                if cells.has(path[i]) {
                    found = found + 1;
                }
            },
            None => {},
        }
        i = i + 1;
    }
    assert(path@.take(path@.len() as int) =~= path@);
    found
}

/// Whether more than three quarters of a path falls in a set.
fn is_mostly(path: &Vec<u32>, set: Option<&Cells>) -> (most: bool)
    requires
        set is Some ==> set->0.settled(),
    ensures
        set is Some ==> most == mostly(path@, Some(set->0@)),
        set is None ==> most == mostly(path@, None),
{
    let found = count(path, set) as u128;
    let length = path.len() as u128;
    4 * found > 3 * length
}

impl<'a> Pass<'a> {
    /// Layers printed since this object's first. A file that completes objects
    /// one at a time builds each from the bed up, so it has several.
    pub fn steps(&self) -> (steps: usize)
        ensures
            steps == layers_up(self.survey.object_starts@, self.state.layer as int),
    {
        let starts = &self.survey.object_starts;
        let layer = self.state.layer;
        let mut upto: usize = starts.len();
        while upto > 0
            invariant
                upto <= starts.len(),
                starts@ == self.survey.object_starts@,
                layer == self.state.layer,
                start_of(starts@, layer as int, starts@.len() as int) == start_of(
                    starts@,
                    layer as int,
                    upto as int,
                ),
            decreases upto,
        {
            if starts[upto - 1] <= layer {
                return layer - starts[upto - 1];
            }
            upto = upto - 1;
        }
        layer
    }

    /// What `layer` was sliced at, falling back to the one height that
    /// describes files the slicer did not vary.
    pub fn height_at(&self, layer: usize) -> (height: Double)
        ensures
            height == if layer < self.heights@.len() && self.heights@[layer as int].height() {
                self.heights@[layer as int]
            } else {
                self.height
            },
    {
        if layer < self.heights.len() && self.heights[layer].is_a_height() {
            self.heights[layer]
        } else {
            self.height
        }
    }

    /// Finds where each loop of a complete region ends, and measures it.
    pub fn close(&mut self)
        requires
            old(self).valid(),
        ensures
            final(self).valid(),
            *final(self) == (Pass { loops: final(self).loops, ..*old(self) }),
            final(self).loops@ == Seq::new(
                old(self).loops@.len(),
                |k: int| measured(old(self).loops@, old(self).buffer@, k),
            ),
            closed(final(self).loops@, final(self).buffer@.len()),
    {
        let ghost before = self.loops@;
        let ghost buffer = self.buffer@;
        let mut k: usize = 0;
        while k < self.loops.len()
            invariant
                k <= self.loops.len(),
                buffer == self.buffer@,
                self.loops@.len() == before.len(),
                old(self).valid(),
                before == old(self).loops@,
                buffer == old(self).buffer@,
                *self == (Pass { loops: self.loops, ..*old(self) }),
                forall|j: int|
                    0 <= j < before.len() ==> #[trigger] self.loops@[j] == if j < k {
                        measured(before, buffer, j)
                    } else {
                        before[j]
                    },
            decreases self.loops.len() - k,
        {
            proof {
                reveal(pass::follows);
            }
            let mut current = self.loops[k];
            let end = if k + 1 < self.loops.len() {
                self.loops[k + 1].lead
            } else {
                self.buffer.len()
            };
            assert(end == end_of(before, buffer.len(), k as int));
            let (outline, points) = self.measure(current.body, end);
            current.end = end;
            current.outline = outline;
            current.points = points;
            self.loops.set(k, current);
            k = k + 1;
        }
        proof {
            reveal(pass::follows);
            reveal(closed);
            assert(self.loops@ =~= Seq::new(
                before.len(),
                |k: int| measured(before, buffer, k),
            ));
            assert forall|k: int| 0 <= k < before.len() implies (#[trigger] self.loops@[k]).lead
                == before[k].lead && self.loops@[k].body == before[k].body by {}
            let total = self.buffer.len();
            assert forall|k: int| 0 <= k < before.len() implies (#[trigger] self.loops@[k]).end
                == end_of(self.loops@, buffer.len(), k) by {
                if k + 1 < before.len() {
                    assert(self.loops@[k + 1].lead == before[k + 1].lead);
                } else {
                    assert(total == buffer.len());
                }
            }
        }
    }

    /// The extent of what some lines extrude, and how many points they lay
    /// down.
    fn measure(&self, from: usize, to: usize) -> (found: (Option<Outline>, usize))
        requires
            from <= to <= self.buffer@.len(),
        ensures
            found.0 == outline_of(self.buffer@, from as int, to as int),
            found.1 == points_of(self.buffer@, from as int, to as int),
    {
        let mut outline: Option<Outline> = None;
        let mut points: usize = 0;
        let mut at = from;
        while at < to
            invariant
                from <= at <= to <= self.buffer@.len(),
                points <= at - from,
                outline == outline_of(self.buffer@, from as int, at as int),
                points == points_of(self.buffer@, from as int, at as int),
            decreases to - at,
        {
            let line = self.buffer[at];
            if line.extrudes {
                match line.xy {
                    Some((x, y)) => {
                        outline = Some(
                            match outline {
                                Some(outline) => Outline {
                                    left: outline.left.min(x),
                                    bottom: outline.bottom.min(y),
                                    right: outline.right.max(x),
                                    top: outline.top.max(y),
                                },
                                None => Outline { left: x, bottom: y, right: x, top: y },
                            },
                        );
                        points = points + 1;
                    },
                    None => {},
                }
            }
            at = at + 1;
        }
        (outline, points)
    }

    /// The lines of a loop whose places stand for all of it when it is held
    /// against another: every so many of the points it lays down, and about
    /// [`PROBES`] of them.
    pub fn probes(&self, k: usize) -> (lines: Vec<usize>)
        requires
            self.valid(),
            closed(self.loops@, self.buffer@.len()),
            k < self.loops@.len(),
            self.loops@[k as int].points == points_of(
                self.buffer@,
                self.loops@[k as int].body as int,
                self.loops@[k as int].end as int,
            ),
        ensures
            lines@ == sampled(
                self.buffer@,
                self.loops@[k as int].body as int,
                self.loops@[k as int].end as int,
                stride(self.loops@[k as int].points as nat),
            ),
    {
        let current = self.loops[k];
        proof {
            lemma_span(self.loops@, self.buffer@, k as int);
        }
        let whole = current.points / PROBES;
        let every = if whole * PROBES < current.points {
            whole + 1
        } else if whole == 0 {
            1
        } else {
            whole
        };
        assert(every == stride(current.points as nat));
        let mut lines: Vec<usize> = Vec::new();
        let mut seen: usize = 0;
        let mut at = current.body;
        while at < current.end
            invariant
                current.body <= at,
                current.end <= self.buffer@.len(),
                at <= current.end || at == current.body,
                every >= 1,
                seen == points_of(self.buffer@, current.body as int, at as int),
                seen <= at - current.body,
                lines@ == sampled(
                    self.buffer@,
                    current.body as int,
                    at as int,
                    every as nat,
                ),
            decreases current.end - at,
        {
            let line = self.buffer[at];
            if line.extrudes && line.xy.is_some() {
                if seen % every == 0 {
                    lines.push(at);
                }
                seen = seen + 1;
            }
            at = at + 1;
        }
        lines
    }

    /// The straight moves and arcs a loop's path is made of.
    pub fn segments(&self, k: usize) -> (path: Vec<Segment>)
        requires
            self.valid(),
            closed(self.loops@, self.buffer@.len()),
            k < self.loops@.len(),
        ensures
            path@ == segments_of(
                self.buffer@,
                self.state.entry,
                self.loops@[k as int].lead as int,
                self.loops@[k as int].end as int,
            ),
    {
        let current = self.loops[k];
        proof {
            lemma_span(self.loops@, self.buffer@, k as int);
        }
        // A loop starts where the one before it finished, and the first loop of
        // a region starts where the nozzle stood when the region opened.
        let mut from = if current.lead == 0 {
            self.state.entry
        } else {
            self.buffer[current.lead - 1].at
        };
        let mut path: Vec<Segment> = Vec::new();
        let mut at = current.lead;
        while at < current.end
            invariant
                current.lead <= at <= current.end <= self.buffer@.len(),
                from == place_before(self.buffer@, self.state.entry, at as int),
                path@ == segments_of(
                    self.buffer@,
                    self.state.entry,
                    current.lead as int,
                    at as int,
                ),
            decreases current.end - at,
        {
            let line = self.buffer[at];
            if line.extrudes {
                path.push(Segment { from, to: line.at, arc: line.arc });
            }
            from = line.at;
            at = at + 1;
        }
        path
    }

    /// Groups the region's loops into contours. `near` says of each pair of
    /// loops, row by row, whether they run beside each other.
    ///
    /// Two loops belong to the same wall when they run beside each other, an
    /// extrusion width apart, which is what a slicer emits: each loop is the
    /// last one offset inwards. Anything else — a hole, another island, one of
    /// the fragments a thin wall breaks into — starts a contour of its own, so
    /// the alternation is always measured from the outermost loop of the wall
    /// it belongs to.
    ///
    /// A loop joins the contour it runs beside, which is not always the one
    /// printed just before it: `inner-outer-inner` puts the visible wall
    /// between the wall's two halves, so the loop after it is the innermost
    /// one and can be the whole stack away.
    pub fn group(&mut self, near: &Vec<bool>)
        requires
            old(self).valid(),
            closed(old(self).loops@, old(self).buffer@.len()),
            near@.len() == old(self).loops@.len() * old(self).loops@.len(),
        ensures
            final(self).valid(),
            *final(self) == (Pass { loops: final(self).loops, ..*old(self) }),
            final(self).loops@ == Seq::new(
                old(self).loops@.len(),
                |k: int|
                    Loop {
                        contour: contour_of(old(self).loops@, near@, k) as usize,
                        ..old(self).loops@[k]
                    },
            ),
            closed(final(self).loops@, final(self).buffer@.len()),
    {
        let ghost before = self.loops@;
        let count = self.loops.len();
        let mut contour: usize = 0;
        let mut opened: usize = 0;
        let mut k: usize = 0;
        while k < count
            invariant
                k <= count == before.len(),
                self.loops@.len() == before.len(),
                near@.len() == count * count,
                *self == (Pass { loops: self.loops, ..*old(self) }),
                contour == grouping(before, near@, k as int).0,
                opened == grouping(before, near@, k as int).1,
                contour <= k,
                opened <= k,
                forall|j: int|
                    0 <= j < before.len() ==> #[trigger] self.loops@[j] == if j < k {
                        Loop { contour: contour_of(before, near@, j) as usize, ..before[j] }
                    } else {
                        before[j]
                    },
            decreases count - k,
        {
            let mut current = self.loops[k];
            let mut taken = false;
            let mut beside = false;
            let mut at: usize = opened;
            while at < k
                invariant
                    opened <= at <= k,
                    k < count == before.len(),
                    self.loops@.len() == before.len(),
                    near@.len() == count * count,
                    forall|j: int|
                        0 <= j < before.len() ==> #[trigger] self.loops@[j] == if j < k {
                            Loop { contour: contour_of(before, near@, j) as usize, ..before[j] }
                        } else {
                            before[j]
                        },
                    taken == exists|j: int| opened <= j < at && (#[trigger] before[j]).external,
                    beside == exists|j: int|
                        opened <= j < at && #[trigger] self::beside(
                            near@,
                            before.len(),
                            j,
                            k as int,
                        ),
                decreases k - at,
            {
                assert(0 <= at * count && at * count + k < count * count) by (nonlinear_arith)
                    requires
                        0 <= at < count,
                        0 <= k < count,
                ;
                assert(at * count + k < near.len());
                let earlier = self.loops[at];
                assert(earlier.external == before[at as int].external);
                let close = near[at * count + k];
                assert(close == self::beside(near@, before.len(), at as int, k as int));
                let ghost (was_taken, was_beside) = (taken, beside);
                taken = taken || earlier.external;
                beside = beside || close;
                proof {
                    if was_taken {
                        let j = choose|j: int| opened <= j < at && (#[trigger] before[j]).external;
                        assert(before[j].external);
                    }
                    if was_beside {
                        let j = choose|j: int|
                            opened <= j < at && #[trigger] self::beside(
                                near@,
                                before.len(),
                                j,
                                k as int,
                            );
                        assert(self::beside(near@, before.len(), j, k as int));
                    }
                }
                at = at + 1;
            }
            if !(k > 0 && !(current.external && taken) && beside) {
                contour = contour + 1;
                opened = k;
            }
            current.contour = contour;
            self.loops.set(k, current);
            k = k + 1;
        }
        proof {
            assert(self.loops@ =~= Seq::new(
                before.len(),
                |k: int|
                    Loop { contour: contour_of(before, near@, k) as usize, ..before[k] },
            ));
            lemma_same_spans(before, self.loops@, self.buffer@);
        }
    }

    /// Settles every loop against the layers either side of it: whether
    /// anything stands on it, and how long its own column has stood. `paths`
    /// holds the cells each loop's path runs through.
    ///
    /// A part is closed partway up wherever a shoulder, a shelf, a counterbore
    /// or a screw-head recess ends one column of wall while the rest carries
    /// on. A bead left raised under one of those is buried by a surface
    /// metered for a full layer, which then lays about twice the material the
    /// gap can hold. The mirror is a column that begins partway up — the
    /// underside of a shelf, the roof of a bridged hole — whose first bead has
    /// no seam under it, so raising it by the full offset asks it to span a
    /// layer and a half of gap the slicer metered for one and leaves a void.
    pub fn mark_columns(&mut self, paths: &Vec<Vec<u32>>)
        requires
            old(self).valid(),
            closed(old(self).loops@, old(self).buffer@.len()),
            paths@.len() == old(self).loops@.len(),
        ensures
            final(self).valid(),
            *final(self) == (Pass { loops: final(self).loops, ..*old(self) }),
            final(self).loops@ == Seq::new(
                old(self).loops@.len(),
                |k: int| marked(*old(self), old(self).loops@[k], paths@[k]@),
            ),
            closed(final(self).loops@, final(self).buffer@.len()),
    {
        let ghost before = self.loops@;
        let survey = self.survey;
        let layer = self.state.layer;
        // The object's last wall layer is capped whether or not the file gave
        // the survey the geometry to work the rest out for itself.
        let tops = survey.closes_an_object(layer);
        let object = self.steps();
        let above = survey.uncovered(layer);
        let here = survey.unsupported(layer);
        let below = if layer > 0 {
            survey.unsupported(layer - 1)
        } else {
            None
        };
        let mut k: usize = 0;
        while k < self.loops.len()
            invariant
                k <= self.loops.len(),
                self.loops@.len() == before.len() == paths@.len(),
                before == old(self).loops@,
                *self == (Pass { loops: self.loops, ..*old(self) }),
                tops == old(self).survey.object_tops@.contains(old(self).state.layer),
                object == layers_up(
                    old(self).survey.object_starts@,
                    old(self).state.layer as int,
                ),
                above is Some ==> above->0.settled(),
                here is Some ==> here->0.settled(),
                below is Some ==> below->0.settled(),
                answers(*old(self)) == (
                    match above {
                        Some(cells) => Some(cells@),
                        None => None,
                    },
                    match here {
                        Some(cells) => Some(cells@),
                        None => None,
                    },
                    match below {
                        Some(cells) => Some(cells@),
                        None => None,
                    },
                ),
                forall|j: int|
                    0 <= j < before.len() ==> #[trigger] self.loops@[j] == if j < k {
                        marked(*old(self), before[j], paths@[j]@)
                    } else {
                        before[j]
                    },
            decreases self.loops.len() - k,
        {
            let mut current = self.loops[k];
            let path = &paths[k];
            current.capped = tops || is_mostly(path, above);
            current.steps = if is_mostly(path, here) {
                0
            } else if is_mostly(path, below) {
                1
            } else {
                object
            };
            self.loops.set(k, current);
            k = k + 1;
        }
        proof {
            assert(self.loops@ =~= Seq::new(
                before.len(),
                |k: int| marked(*old(self), before[k], paths@[k]@),
            ));
            lemma_same_spans(before, self.loops@, self.buffer@);
        }
    }
}

/// A loop on the layer that tops an object's walls is laid flat, whatever stands
/// on it.
pub proof fn the_last_wall_layer_is_capped(pass: Pass, current: Loop, path: Seq<u32>)
    requires
        pass.survey.object_tops@.contains(pass.state.layer),
    ensures
        marked(pass, current, path).capped,
{
}

/// A column that begins on a layer climbs from its plane: it has stood for no
/// layers at all.
pub proof fn a_column_that_begins_here_has_not_stood(pass: Pass, current: Loop, path: Seq<u32>)
    requires
        mostly(path, answers(pass).1),
    ensures
        marked(pass, current, path).steps == 0,
{
}

/// The layer laid on the build plate is the first of its object, so nothing on
/// it has stood for any layers.
pub proof fn an_objects_first_layer_is_no_steps_up(starts: Seq<usize>, k: int)
    requires
        0 <= k < starts.len(),
        forall|i: int, j: int| 0 <= i < j < starts.len() ==> starts[i] < starts[j],
    ensures
        layers_up(starts, starts[k] as int) == 0,
{
    lemma_own_start(starts, k, starts.len() as int);
}

proof fn lemma_own_start(starts: Seq<usize>, k: int, upto: int)
    requires
        0 <= k < upto <= starts.len(),
        forall|i: int, j: int| 0 <= i < j < starts.len() ==> starts[i] < starts[j],
    ensures
        start_of(starts, starts[k] as int, upto) == starts[k],
    decreases upto,
{
    if upto - 1 > k {
        lemma_own_start(starts, k, upto - 1);
    }
}

/// How many cells of a path, one for every place of it, a set does not hold.
pub open spec fn outside(path: Seq<u32>, set: Set<u32>) -> nat {
    path.filter(|cell: u32| !set.contains(cell)).len()
}

proof fn lemma_outside(path: Seq<u32>, set: Set<u32>)
    ensures
        held(path, Some(set)) + outside(path, set) == path.len(),
    decreases path.len(),
{
    reveal(Seq::filter);
    if path.len() > 0 {
        lemma_outside(path.drop_last(), set);
    }
}

proof fn lemma_held_by_none(path: Seq<u32>)
    ensures
        held(path, None) == 0,
    decreases path.len(),
{
    if path.len() > 0 {
        lemma_held_by_none(path.drop_last());
    }
}

/// The cells of a layer that a survey keeps an answer for, and none where it
/// keeps nothing.
pub open spec fn known(cells: Seq<Cells>, layer: int) -> Set<u32> {
    if 0 <= layer < cells.len() {
        cells[layer]@
    } else {
        Set::empty()
    }
}

proof fn lemma_known(cells: Seq<Cells>, layer: int, path: Seq<u32>)
    requires
        0 <= layer,
    ensures
        mostly(path, scan::answer(cells, layer)) == (path.len() > 0 && 4 * outside(
            path,
            known(cells, layer),
        ) < path.len()),
{
    lemma_outside(path, known(cells, layer));
    lemma_held_by_none(path);
    if scan::answer(cells, layer) is None {
        assert(known(cells, layer) =~= Set::<u32>::empty());
        lemma_outside_nothing(path);
    } else {
        assert(scan::answer(cells, layer)->0 == known(cells, layer));
    }
}

proof fn lemma_outside_nothing(path: Seq<u32>)
    ensures
        outside(path, Set::<u32>::empty()) == path.len(),
    decreases path.len(),
{
    reveal(Seq::filter);
    if path.len() > 0 {
        lemma_outside_nothing(path.drop_last());
    }
}

/// A loop is laid flat where its wall tops out, and otherwise exactly where less
/// than a quarter of its path lies under a wall of the layer above: a notch in a
/// wall that goes on does not take its stagger.
pub proof fn a_loop_is_capped_where_three_quarters_of_it_end(
    pass: Pass,
    current: Loop,
    path: Seq<u32>,
)
    requires
        !pass.survey.object_tops@.contains(pass.state.layer),
    ensures
        marked(pass, current, path).capped == (path.len() > 0 && 4 * outside(
            path,
            known(pass.survey.uncovered@, pass.state.layer as int),
        ) < path.len()),
{
    lemma_known(pass.survey.uncovered@, pass.state.layer as int, path);
}

/// A column has stood for no layers where less than a quarter of the loop's path
/// had a wall under it, for one where that was so on the layer below, and
/// otherwise for all the layers since its object's first.
pub proof fn a_column_begins_where_three_quarters_of_it_do(
    pass: Pass,
    current: Loop,
    path: Seq<u32>,
)
    ensures
        ({
            let layer = pass.state.layer as int;
            let here = outside(path, known(pass.survey.unsupported@, layer));
            let below = outside(path, known(pass.survey.unsupported@, layer - 1));
            let steps = marked(pass, current, path).steps;
            &&& 4 * here < path.len() ==> steps == 0
            &&& 4 * here >= path.len() && 4 * below < path.len() ==> steps == 1
            &&& 4 * here >= path.len() && 4 * below >= path.len() ==> steps as int == layers_up(
                pass.survey.object_starts@,
                layer,
            )
        }),
{
    let layer = pass.state.layer as int;
    lemma_known(pass.survey.unsupported@, layer, path);
    if layer > 0 {
        lemma_known(pass.survey.unsupported@, layer - 1, path);
    } else {
        lemma_held_by_none(path);
        lemma_outside_nothing(path);
    }
    lemma_start_of(
        pass.survey.object_starts@,
        layer,
        pass.survey.object_starts@.len() as int,
    );
}

/// The layers since an object's first are counted from the last start at or
/// below the layer.
pub proof fn layers_are_counted_from_the_last_start(starts: Seq<usize>, layer: int, k: int)
    requires
        0 <= k < starts.len(),
        forall|i: int, j: int| 0 <= i < j < starts.len() ==> starts[i] < starts[j],
        starts[k] <= layer,
        k + 1 < starts.len() ==> layer < starts[k + 1],
    ensures
        layers_up(starts, layer) == layer - starts[k],
{
    lemma_last_start(starts, layer, k, starts.len() as int);
}

proof fn lemma_last_start(starts: Seq<usize>, layer: int, k: int, upto: int)
    requires
        0 <= k < upto <= starts.len(),
        forall|i: int, j: int| 0 <= i < j < starts.len() ==> starts[i] < starts[j],
        starts[k] <= layer,
        k + 1 < starts.len() ==> layer < starts[k + 1],
    ensures
        start_of(starts, layer, upto) == starts[k],
    decreases upto,
{
    if upto - 1 > k {
        if upto - 1 > k + 1 {
            assert(starts[k + 1] < starts[upto - 1]);
        }
        lemma_last_start(starts, layer, k, upto - 1);
    }
}

/// Where a region's loops have been grouped as far as loop `k`, the loops of the
/// wall that is open are those since it opened.
proof fn lemma_open_wall(loops: Seq<Loop>, near: Seq<bool>, k: int, at: int)
    requires
        0 <= at < k,
    ensures
        (contour_of(loops, near, at) == contour_of(loops, near, k - 1)) == (grouping(
            loops,
            near,
            k,
        ).1 <= at),
    decreases k,
{
    lemma_opened_covers(loops, near, at + 1, k);
    if grouping(loops, near, k).1 <= at {
        lemma_since_opened(loops, near, k, at);
    }
}

proof fn lemma_since_opened(loops: Seq<Loop>, near: Seq<bool>, k: int, at: int)
    requires
        0 <= at < k,
        grouping(loops, near, k).1 <= at,
    ensures
        contour_of(loops, near, at) == grouping(loops, near, k).0,
    decreases k,
{
    if at < k - 1 {
        lemma_since_opened(loops, near, k - 1, at);
    }
}

/// A loop that runs beside none of the loops of the wall before it opens a wall
/// of its own.
pub proof fn a_loop_beside_none_opens_a_wall(loops: Seq<Loop>, near: Seq<bool>, k: int)
    requires
        0 < k < loops.len(),
        forall|at: int|
            0 <= at < k && contour_of(loops, near, at) == contour_of(loops, near, k - 1)
                ==> !#[trigger] near[at * loops.len() + k],
    ensures
        contour_of(loops, near, k) == contour_of(loops, near, k - 1) + 1,
{
    let opened = grouping(loops, near, k).1;
    lemma_grouping(loops, near, k);
    if exists|at: int| opened <= at < k && #[trigger] beside(near, loops.len(), at, k) {
        let at = choose|at: int| opened <= at < k && #[trigger] beside(near, loops.len(), at, k);
        lemma_open_wall(loops, near, k, at);
        assert(near[at * loops.len() + k]);
    }
}

/// A loop that runs beside any loop of the wall before it is of that wall, be it
/// the last one printed or not. A visible one is as long as the wall shows no
/// other.
pub proof fn a_loop_beside_a_wall_is_of_it(loops: Seq<Loop>, near: Seq<bool>, k: int, beside: int)
    requires
        0 <= beside < k < loops.len(),
        contour_of(loops, near, beside) == contour_of(loops, near, k - 1),
        near[beside * loops.len() + k],
        loops[k].external ==> forall|at: int|
            0 <= at < k && contour_of(loops, near, at) == contour_of(loops, near, k - 1)
                ==> !(#[trigger] loops[at]).external,
    ensures
        contour_of(loops, near, k) == contour_of(loops, near, k - 1),
{
    let opened = grouping(loops, near, k).1;
    lemma_grouping(loops, near, k);
    lemma_open_wall(loops, near, k, beside);
    assert(self::beside(near, loops.len(), beside, k));
    if second_face(loops, opened, k) {
        let at = choose|at: int| opened <= at < k && (#[trigger] loops[at]).external;
        lemma_open_wall(loops, near, k, at);
    }
}

} // verus!
