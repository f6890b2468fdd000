//! Which loops of a wall are raised.
//!
//! Which loop is number one decides which loops are raised, so it has to be a
//! loop that stays put. A wall gains and loses loops as it thickens, and always
//! at the hidden end: number from there and every loop shifts one place the
//! moment the count changes, inverting the stagger. One column then gains half a
//! layer of doubled material and its neighbour opens a half-layer void, which is
//! weaker than the plain seam this exists to remove.
//!
//! The visible wall is the loop that stays, so it is the anchor and it takes
//! phase zero, which is flat. The alternation then runs inward through the whole
//! stack, visible wall included: three loops leave both ends flat and raise the
//! one between them, four raise the far end.

use super::pass::Loop;
use super::pass::Pass;
use super::region;
use crate::double::Double;
use vstd::prelude::*;

verus! {

/// The first loop of the contour that loop `k` belongs to. Loops arrive in print
/// order, so one contour's loops are contiguous.
pub open spec fn run_start(loops: Seq<Loop>, k: int) -> int
    decreases k,
{
    if k > 0 && loops[k - 1].contour == loops[k].contour {
        run_start(loops, k - 1)
    } else {
        k
    }
}

/// One past the last loop of the contour that loop `k` belongs to.
pub open spec fn run_end(loops: Seq<Loop>, k: int) -> int
    decreases loops.len() - k,
{
    if k + 1 < loops.len() && loops[k + 1].contour == loops[k].contour {
        run_end(loops, k + 1)
    } else {
        k + 1
    }
}

/// The first visible loop from `from` on and before `end`.
pub open spec fn visible(loops: Seq<Loop>, from: int, end: int) -> Option<int>
    decreases end - from,
{
    if from >= end {
        None
    } else if loops[from].external {
        Some(from)
    } else {
        visible(loops, from + 1, end)
    }
}

/// The visible loop of the contour that loop `k` belongs to.
pub open spec fn anchor(loops: Seq<Loop>, k: int) -> Option<int> {
    visible(loops, run_start(loops, k), run_end(loops, k))
}

/// The visible wall was printed between the others, so a loop's place in the
/// stack is not its distance along the buffer: `inner-outer-inner` prints the
/// innermost wall last, right after the visible one, which lands it a step from
/// the anchor when it is a whole stack away. Measuring the geometry is the only
/// way to tell.
pub open spec fn between(loops: Seq<Loop>, k: int) -> bool {
    anchor(loops, k) matches Some(at) && at != run_start(loops, k) && at + 1 != run_end(loops, k)
}

/// Loop `a` comes before loop `b` by its distance to the visible wall, and by
/// its place in the file where the distances are the same.
pub open spec fn nearer(gaps: Seq<Double>, a: int, b: int) -> bool {
    gaps[a].rank() < gaps[b].rank() || (gaps[a].rank() == gaps[b].rank() && a < b)
}

/// How many loops of `start..end` come before loop `k`.
pub open spec fn place(gaps: Seq<Double>, start: int, end: int, k: int) -> nat
    decreases end - start,
{
    if start >= end {
        0
    } else {
        place(gaps, start, end - 1, k) + if nearer(gaps, end - 1, k) {
            1nat
        } else {
            0
        }
    }
}

/// A loop's place in its stack, counted from the visible wall. A contour with no
/// visible wall in it, which is what a hole's loops look like when the slicer
/// split them across regions, is counted from the end the visible wall would
/// have been at.
pub open spec fn phase(
    loops: Seq<Loop>,
    gaps: Seq<Double>,
    external_first: bool,
    k: int,
) -> int {
    let start = run_start(loops, k);
    let end = run_end(loops, k);
    match anchor(loops, k) {
        Some(at) => if between(loops, k) {
            place(gaps, start, end, k) as int
        } else if k >= at {
            k - at
        } else {
            at - k
        },
        None => if external_first {
            k - start + 1
        } else {
            end - k
        },
    }
}

/// A loop is raised when its place in the stack is odd. One that the slicer only
/// ever called an overhang is left flat: nothing in the file says which wall it
/// came out of, and most overhang extrusion is really the visible wall.
pub open spec fn raises(
    loops: Seq<Loop>,
    gaps: Seq<Double>,
    external_first: bool,
    k: int,
) -> bool {
    &&& phase(loops, gaps, external_first, k) % 2 == 1
    &&& loops[k].external || loops[k].hidden
}

proof fn lemma_run(loops: Seq<Loop>, k: int)
    requires
        0 <= k < loops.len(),
    ensures
        0 <= run_start(loops, k) <= k,
        k < run_end(loops, k) <= loops.len(),
{
    lemma_run_start(loops, k);
    lemma_run_end(loops, k);
}

proof fn lemma_run_start(loops: Seq<Loop>, k: int)
    requires
        0 <= k < loops.len(),
    ensures
        0 <= run_start(loops, k) <= k,
    decreases k,
{
    if k > 0 && loops[k - 1].contour == loops[k].contour {
        lemma_run_start(loops, k - 1);
    }
}

proof fn lemma_run_end(loops: Seq<Loop>, k: int)
    requires
        0 <= k < loops.len(),
    ensures
        k < run_end(loops, k) <= loops.len(),
    decreases loops.len() - k,
{
    if k + 1 < loops.len() && loops[k + 1].contour == loops[k].contour {
        lemma_run_end(loops, k + 1);
    }
}

proof fn lemma_place(gaps: Seq<Double>, start: int, end: int, k: int)
    requires
        start <= end,
    ensures
        place(gaps, start, end, k) <= end - start,
    decreases end - start,
{
    if start < end {
        lemma_place(gaps, start, end - 1, k);
    }
}

proof fn lemma_visible(loops: Seq<Loop>, from: int, end: int)
    requires
        0 <= from <= end <= loops.len(),
    ensures
        visible(loops, from, end) matches Some(at) ==> from <= at < end && loops[at].external,
        visible(loops, from, end) matches Some(at) ==> forall|i: int|
            from <= i < at ==> !(#[trigger] loops[i]).external,
        visible(loops, from, end) is None ==> forall|i: int|
            from <= i < end ==> !(#[trigger] loops[i]).external,
    decreases end - from,
{
    if from < end && !loops[from].external {
        lemma_visible(loops, from + 1, end);
    }
}

impl<'a> Pass<'a> {
    /// The bounds of the contour that loop `k` belongs to, and its visible loop.
    fn contour(&self, k: usize) -> (found: (usize, usize, Option<usize>))
        requires
            k < self.loops@.len(),
        ensures
            found.0 == run_start(self.loops@, k as int),
            found.1 == run_end(self.loops@, k as int),
            found.0 <= k < found.1 <= self.loops@.len(),
            found.2 is Some == anchor(self.loops@, k as int) is Some,
            found.2 is Some ==> found.2->0 == anchor(self.loops@, k as int)->0 && found.0
                <= found.2->0 < found.1,
    {
        let ghost loops = self.loops@;
        let mut start = k;
        while start > 0 && self.loops[start - 1].contour == self.loops[start].contour
            invariant
                start <= k < self.loops@.len(),
                loops == self.loops@,
                run_start(loops, k as int) == run_start(loops, start as int),
            decreases start,
        {
            start = start - 1;
        }
        let mut last = k;
        while last < self.loops.len() - 1 && self.loops[last + 1].contour
            == self.loops[last].contour
            invariant
                k <= last < self.loops@.len(),
                loops == self.loops@,
                run_end(loops, k as int) == run_end(loops, last as int),
            decreases self.loops@.len() - last,
        {
            last = last + 1;
        }
        let end = last + 1;
        let mut at = start;
        while at < end && !self.loops[at].external
            invariant
                start <= at <= end <= self.loops@.len(),
                loops == self.loops@,
                visible(loops, start as int, end as int) == visible(
                    loops,
                    at as int,
                    end as int,
                ),
            decreases end - at,
        {
            at = at + 1;
        }
        let anchor = if at < end {
            Some(at)
        } else {
            None
        };
        (start, end, anchor)
    }

    /// The visible loop that loop `k`'s distance has to be measured to, where
    /// the order of the file does not say where in the stack `k` is.
    pub fn measured_from(&self, k: usize) -> (found: Option<usize>)
        requires
            k < self.loops@.len(),
        ensures
            found is Some == between(self.loops@, k as int),
            found is Some ==> found->0 == anchor(self.loops@, k as int)->0 && found->0
                < self.loops@.len(),
    {
        let (start, end, anchor) = self.contour(k);
        match anchor {
            Some(at) => if at != start && at + 1 != end {
                Some(at)
            } else {
                None
            },
            None => None,
        }
    }

    /// Whether loop `k` is raised.
    fn is_raised(&self, gaps: &Vec<Double>, k: usize) -> (raised: bool)
        requires
            k < self.loops@.len(),
            gaps@.len() == self.loops@.len(),
        ensures
            raised == raises(
                self.loops@,
                gaps@,
                self.config.external_perimeters_first,
                k as int,
            ),
    {
        let current = self.loops[k];
        if !current.external && !current.hidden {
            return false;
        }
        let (start, end, anchor) = self.contour(k);
        let phase = match anchor {
            Some(at) => if at != start && at + 1 != end {
                let mut ahead: usize = 0;
                let mut other = start;
                while other < end
                    invariant
                        start <= other <= end <= gaps@.len(),
                        k < gaps@.len(),
                        ahead == place(gaps@, start as int, other as int, k as int),
                        ahead <= other - start,
                    decreases end - other,
                {
                    if gaps[other].precedes(gaps[k]) || (!gaps[k].precedes(gaps[other]) && other
                        < k) {
                        ahead = ahead + 1;
                    }
                    other = other + 1;
                }
                ahead
            } else if k >= at {
                k - at
            } else {
                at - k
            },
            None => if self.config.external_perimeters_first {
                k - start + 1
            } else {
                end - k
            },
        };
        phase % 2 == 1
    }

    /// Numbers each contour's loops outwards from the visible wall. `gaps` holds
    /// how close each loop comes to the visible wall of its contour, where
    /// [`Pass::measured_from`] asks for it.
    ///
    /// A contour holding one loop is raised too. It has no internal loop to
    /// alternate with, but an internal perimeter exists only because the slicer
    /// inset it from an external one, so the wall that shows always runs beside
    /// it.
    pub fn number_loops(&mut self, gaps: &Vec<Double>)
        requires
            old(self).valid(),
            region::closed(old(self).loops@, old(self).buffer@.len()),
            gaps@.len() == old(self).loops@.len(),
        ensures
            final(self).valid(),
            *final(self) == (Pass { loops: final(self).loops, ..*old(self) }),
            final(self).loops@ == Seq::new(
                old(self).loops@.len(),
                |k: int|
                    Loop {
                        raised: raises(
                            old(self).loops@,
                            gaps@,
                            old(self).config.external_perimeters_first,
                            k,
                        ),
                        ..old(self).loops@[k]
                    },
            ),
            region::closed(final(self).loops@, final(self).buffer@.len()),
            forall|k: int|
                0 <= k < old(self).loops@.len() && !(#[trigger] old(self).loops@[k]).external && !old(
                    self,
                ).loops@[k].hidden ==> !final(self).loops@[k].raised,
    {
        let ghost before = self.loops@;
        let ghost first = self.config.external_perimeters_first;
        let mut raised: Vec<bool> = Vec::new();
        let mut k: usize = 0;
        while k < self.loops.len()
            invariant
                k <= self.loops@.len() == gaps@.len(),
                *self == *old(self),
                before == self.loops@,
                first == self.config.external_perimeters_first,
                raised@.len() == k,
                forall|j: int| 0 <= j < k ==> #[trigger] raised@[j] == raises(before, gaps@, first, j),
            decreases self.loops@.len() - k,
        {
            raised.push(self.is_raised(gaps, k));
            k = k + 1;
        }
        let mut k: usize = 0;
        while k < self.loops.len()
            invariant
                k <= self.loops@.len() == before.len() == raised@.len(),
                *self == (Pass { loops: self.loops, ..*old(self) }),
                forall|j: int|
                    0 <= j < before.len() ==> #[trigger] raised@[j] == raises(
                        before,
                        gaps@,
                        first,
                        j,
                    ),
                forall|j: int|
                    0 <= j < before.len() ==> #[trigger] self.loops@[j] == if j < k {
                        Loop { raised: raised@[j], ..before[j] }
                    } else {
                        before[j]
                    },
            decreases self.loops@.len() - k,
        {
            let mut current = self.loops[k];
            current.raised = raised[k];
            self.loops.set(k, current);
            k = k + 1;
        }
        proof {
            assert(self.loops@ =~= Seq::new(
                before.len(),
                |k: int| Loop { raised: raises(before, gaps@, first, k), ..before[k] },
            ));
            region::lemma_same_spans(before, self.loops@, self.buffer@);
        }
    }
}

/// Two loops next to each other in one wall are never both raised and never both
/// flat, unless the slicer only ever called one of them an overhang or the
/// visible wall was printed between the others.
pub proof fn neighbours_alternate(
    loops: Seq<Loop>,
    gaps: Seq<Double>,
    external_first: bool,
    k: int,
)
    requires
        0 <= k,
        k + 1 < loops.len(),
        loops[k].contour == loops[k + 1].contour,
        loops[k].external || loops[k].hidden,
        loops[k + 1].external || loops[k + 1].hidden,
        !between(loops, k),
    ensures
        raises(loops, gaps, external_first, k) != raises(loops, gaps, external_first, k + 1),
{
    assert(run_start(loops, k + 1) == run_start(loops, k));
    assert(run_end(loops, k) == run_end(loops, k + 1));
    lemma_run(loops, k);
    lemma_run(loops, k + 1);
    lemma_visible(loops, run_start(loops, k), run_end(loops, k));
}

/// The visible wall anchors the numbering: it is flat itself, and where it was
/// printed between the others it is flat as long as no loop comes before it by
/// its distance.
pub proof fn the_visible_wall_is_flat(
    loops: Seq<Loop>,
    gaps: Seq<Double>,
    external_first: bool,
    k: int,
)
    requires
        0 <= k < loops.len(),
        anchor(loops, k) == Some(k),
        between(loops, k) ==> forall|j: int|
            run_start(loops, k) <= j < run_end(loops, k) ==> !#[trigger] nearer(gaps, j, k),
    ensures
        !raises(loops, gaps, external_first, k),
{
    if between(loops, k) {
        lemma_run(loops, k);
        lemma_first_place(gaps, run_start(loops, k), run_end(loops, k), k);
    }
}

proof fn lemma_first_place(gaps: Seq<Double>, start: int, end: int, k: int)
    requires
        forall|j: int| start <= j < end ==> !#[trigger] nearer(gaps, j, k),
    ensures
        place(gaps, start, end, k) == 0,
    decreases end - start,
{
    if start < end {
        lemma_first_place(gaps, start, end - 1, k);
        assert(!nearer(gaps, end - 1, k));
    }
}

/// A wall of hidden loops alone that holds one loop has it raised.
pub proof fn a_lone_hidden_loop_is_raised(
    loops: Seq<Loop>,
    gaps: Seq<Double>,
    external_first: bool,
    k: int,
)
    requires
        0 <= k < loops.len(),
        run_start(loops, k) == k,
        run_end(loops, k) == k + 1,
        loops[k].hidden,
        !loops[k].external,
    ensures
        raises(loops, gaps, external_first, k),
{
    assert(visible(loops, k + 1, k + 1) is None);
}

/// All loops of a region are one wall.
pub open spec fn one_wall(loops: Seq<Loop>) -> bool {
    forall|i: int, j: int|
        0 <= i < loops.len() && 0 <= j < loops.len() ==> (#[trigger] loops[i]).contour == (
        #[trigger] loops[j]).contour
}

proof fn lemma_whole_run(loops: Seq<Loop>, k: int)
    requires
        one_wall(loops),
        0 <= k < loops.len(),
    ensures
        run_start(loops, k) == 0,
        run_end(loops, k) == loops.len(),
{
    lemma_whole_start(loops, k);
    lemma_whole_end(loops, k);
}

proof fn lemma_whole_start(loops: Seq<Loop>, k: int)
    requires
        one_wall(loops),
        0 <= k < loops.len(),
    ensures
        run_start(loops, k) == 0,
    decreases k,
{
    if k > 0 {
        lemma_whole_start(loops, k - 1);
    }
}

proof fn lemma_whole_end(loops: Seq<Loop>, k: int)
    requires
        one_wall(loops),
        0 <= k < loops.len(),
    ensures
        run_end(loops, k) == loops.len(),
    decreases loops.len() - k,
{
    if k + 1 < loops.len() {
        lemma_whole_end(loops, k + 1);
    }
}

/// The first visible loop of a run is not before any loop of it that is not
/// visible.
proof fn lemma_none_before(loops: Seq<Loop>, from: int, at: int)
    requires
        0 <= from <= at < loops.len(),
        forall|i: int| from <= i < at ==> !(#[trigger] loops[i]).external,
        loops[at].external,
    ensures
        visible(loops, from, loops.len() as int) == Some(at),
    decreases at - from,
{
    if from < at {
        lemma_none_before(loops, from + 1, at);
    }
}

/// A wall that was printed from its visible loop inwards keeps its stagger when
/// it gains a hidden loop at the far end: every loop it had stays as it was.
pub proof fn a_wall_that_thickens_inwards_keeps_its_stagger(
    loops: Seq<Loop>,
    gained: Loop,
    gaps: Seq<Double>,
    external_first: bool,
    k: int,
)
    requires
        one_wall(loops.push(gained)),
        0 <= k < loops.len(),
        loops[0].external,
    ensures
        raises(loops.push(gained), gaps, external_first, k) == raises(
            loops,
            gaps,
            external_first,
            k,
        ),
{
    let thicker = loops.push(gained);
    assert(one_wall(loops)) by {
        assert forall|i: int, j: int|
            0 <= i < loops.len() && 0 <= j < loops.len() implies (#[trigger] loops[i]).contour == (
        #[trigger] loops[j]).contour by {
            assert(thicker[i].contour == thicker[j].contour);
        }
    }
    lemma_whole_run(loops, k);
    lemma_whole_run(thicker, k);
    lemma_none_before(loops, 0, 0);
    lemma_none_before(thicker, 0, 0);
}

/// A wall that was printed with its visible loop last keeps its stagger when it
/// gains a hidden loop at the far end, which is then the first one printed.
pub proof fn a_wall_that_thickens_outwards_keeps_its_stagger(
    loops: Seq<Loop>,
    gained: Loop,
    gaps: Seq<Double>,
    external_first: bool,
    k: int,
)
    requires
        one_wall(seq![gained] + loops),
        0 <= k < loops.len(),
        loops.last().external,
        forall|i: int| 0 <= i < loops.len() - 1 ==> !(#[trigger] loops[i]).external,
        !gained.external,
    ensures
        raises(seq![gained] + loops, gaps, external_first, k + 1) == raises(
            loops,
            gaps,
            external_first,
            k,
        ),
{
    let thicker = seq![gained] + loops;
    let last = loops.len() - 1;
    assert forall|i: int| 0 <= i < loops.len() implies thicker[i + 1] == #[trigger] loops[i] by {}
    assert(one_wall(loops)) by {
        assert forall|i: int, j: int|
            0 <= i < loops.len() && 0 <= j < loops.len() implies (#[trigger] loops[i]).contour == (
        #[trigger] loops[j]).contour by {
            assert(thicker[i + 1].contour == thicker[j + 1].contour);
        }
    }
    lemma_whole_run(loops, k);
    lemma_whole_run(thicker, k + 1);
    lemma_none_before(loops, 0, last);
    assert forall|i: int| 0 <= i < last + 1 implies !(#[trigger] thicker[i]).external by {
        if i > 0 {
            assert(thicker[i] == loops[i - 1]);
        }
    }
    assert(thicker[last + 1] == loops[last]);
    lemma_none_before(thicker, 0, last + 1);
    assert(thicker[k + 1] == loops[k]);
}

/// A loop that the slicer only ever called an overhang is left on the plane,
/// whatever its place in the wall: nothing says which wall it came out of, and
/// raising the visible one puts a step on the surface.
pub proof fn an_overhang_is_never_raised(
    loops: Seq<Loop>,
    gaps: Seq<Double>,
    external_first: bool,
    k: int,
)
    requires
        !loops[k].external,
        !loops[k].hidden,
    ensures
        !raises(loops, gaps, external_first, k),
{
}

/// The loops of `start..end` are one whole wall.
pub open spec fn whole_wall(loops: Seq<Loop>, start: int, end: int) -> bool {
    &&& 0 <= start < end <= loops.len()
    &&& forall|i: int| start <= i < end ==> (#[trigger] loops[i]).contour == loops[start].contour
    &&& start > 0 ==> loops[start - 1].contour != loops[start].contour
    &&& end < loops.len() ==> loops[end].contour != loops[start].contour
}

proof fn lemma_wall_bounds(loops: Seq<Loop>, start: int, end: int, k: int)
    requires
        whole_wall(loops, start, end),
        start <= k < end,
    ensures
        run_start(loops, k) == start,
        run_end(loops, k) == end,
{
    lemma_wall_start(loops, start, end, k);
    lemma_wall_end(loops, start, end, k);
}

proof fn lemma_wall_start(loops: Seq<Loop>, start: int, end: int, k: int)
    requires
        whole_wall(loops, start, end),
        start <= k < end,
    ensures
        run_start(loops, k) == start,
    decreases k - start,
{
    assert(loops[k].contour == loops[start].contour);
    if k > start {
        assert(loops[k - 1].contour == loops[start].contour);
        lemma_wall_start(loops, start, end, k - 1);
    }
}

proof fn lemma_wall_end(loops: Seq<Loop>, start: int, end: int, k: int)
    requires
        whole_wall(loops, start, end),
        start <= k < end,
    ensures
        run_end(loops, k) == end,
    decreases end - k,
{
    assert(loops[k].contour == loops[start].contour);
    if k + 1 < end {
        assert(loops[k + 1].contour == loops[start].contour);
        lemma_wall_end(loops, start, end, k + 1);
    }
}

proof fn lemma_first_visible(loops: Seq<Loop>, from: int, at: int, end: int)
    requires
        0 <= from <= at < end <= loops.len(),
        loops[at].external,
        forall|i: int| from <= i < at ==> !(#[trigger] loops[i]).external,
    ensures
        visible(loops, from, end) == Some(at),
    decreases at - from,
{
    if from < at {
        lemma_first_visible(loops, from + 1, at, end);
    }
}

proof fn lemma_none_visible(loops: Seq<Loop>, from: int, end: int)
    requires
        0 <= from <= end <= loops.len(),
        forall|i: int| from <= i < end ==> !(#[trigger] loops[i]).external,
    ensures
        visible(loops, from, end) is None,
    decreases end - from,
{
    if from < end {
        lemma_none_visible(loops, from + 1, end);
    }
}

/// A wall whose visible loop was printed first or last raises every second loop
/// counted from it, starting with the one beside it.
pub proof fn a_wall_is_raised_at_odd_places_from_its_visible_loop(
    loops: Seq<Loop>,
    gaps: Seq<Double>,
    external_first: bool,
    start: int,
    end: int,
    face: int,
    k: int,
)
    requires
        whole_wall(loops, start, end),
        start <= k < end,
        face == start || face == end - 1,
        loops[face].external,
        forall|i: int| start <= i < end && i != face ==> !(#[trigger] loops[i]).external,
        k == face || loops[k].hidden,
    ensures
        raises(loops, gaps, external_first, k) == ((k - face) % 2 == 1),
{
    lemma_wall_bounds(loops, start, end, k);
    lemma_first_visible(loops, start, face, end);
}

/// A wall without a visible loop is counted from the end the visible one would
/// have been at: its first loop where the visible wall is printed first, and its
/// last where it is printed last. That loop is raised, and every second one from
/// it.
pub proof fn a_wall_without_a_face_is_counted_from_where_it_would_be(
    loops: Seq<Loop>,
    gaps: Seq<Double>,
    external_first: bool,
    start: int,
    end: int,
    k: int,
)
    requires
        whole_wall(loops, start, end),
        start <= k < end,
        forall|i: int| start <= i < end ==> !(#[trigger] loops[i]).external,
        loops[k].hidden,
    ensures
        external_first ==> raises(loops, gaps, external_first, k) == ((k - start) % 2 == 0),
        !external_first ==> raises(loops, gaps, external_first, k) == ((end - 1 - k) % 2 == 0),
{
    lemma_wall_bounds(loops, start, end, k);
    lemma_none_visible(loops, start, end);
}

/// The loops of a wall that lie closer to its visible loop than loop `k`, and of
/// those as close the ones printed before it.
pub open spec fn closer(gaps: Seq<Double>, start: int, end: int, k: int) -> Seq<int> {
    Seq::new((end - start) as nat, |i: int| start + i).filter(
        |j: int|
            gaps[j].rank() < gaps[k].rank() || (gaps[j].rank() == gaps[k].rank() && j < k),
    )
}

/// A wall whose visible loop was printed between the others raises every second
/// loop by how close they come to it: those with an odd number of loops closer.
pub proof fn a_wall_around_its_face_is_raised_by_distance(
    loops: Seq<Loop>,
    gaps: Seq<Double>,
    external_first: bool,
    start: int,
    end: int,
    face: int,
    k: int,
)
    requires
        whole_wall(loops, start, end),
        start <= k < end,
        start < face < end - 1,
        loops[face].external,
        forall|i: int| start <= i < end && i != face ==> !(#[trigger] loops[i]).external,
        k == face || loops[k].hidden,
    ensures
        raises(loops, gaps, external_first, k) == (closer(gaps, start, end, k).len() % 2 == 1),
{
    lemma_wall_bounds(loops, start, end, k);
    lemma_first_visible(loops, start, face, end);
    lemma_closer(gaps, start, end, k);
}

proof fn lemma_closer(gaps: Seq<Double>, start: int, end: int, k: int)
    requires
        start <= end,
    ensures
        closer(gaps, start, end, k).len() == place(gaps, start, end, k),
    decreases end - start,
{
    reveal(Seq::filter);
    let all = Seq::new((end - start) as nat, |i: int| start + i);
    if start < end {
        lemma_closer(gaps, start, end - 1, k);
        assert(all.drop_last() =~= Seq::new((end - 1 - start) as nat, |i: int| start + i));
    }
}

} // verus!
