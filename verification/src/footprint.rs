//! Where a layer's walls sit, quantised to a grid.
//!
//! A raised bead stands half a layer proud of its own plane, so whatever the
//! slicer prints over it at the next plane was metered for a gap twice as tall
//! as the one that is really there. That is only safe where the thing above is
//! another raised bead of the same column. Answering "is there a wall above
//! this one?" needs the next layer's geometry, which the survey has and the
//! rewrite does not, so the survey works it out and hands over the answer.
//!
//! The answer is a set of grid cells rather than a set of paths: a cell is the
//! unit of "these two beads overlap", the comparison is a binary search, and
//! two runs over the same path always produce the same cells however the loop
//! was sampled.

use vstd::prelude::*;
use vstd::slice::*;

verus! {

/// Cells one move may be cut into. A move longer than a bed is not a move, and
/// a corrupt coordinate must not turn into an allocation.
pub const MAX_CELLS: usize = 8192;

/// One axis of a cell in sixteen bits. A coordinate out of reach lands on the
/// edge of the grid.
pub open spec fn narrow(value: int) -> int {
    if value < -0x8000 {
        0x8000
    } else if value < 0 {
        value + 0x1_0000
    } else if value <= 0x7fff {
        value
    } else {
        0x7fff
    }
}

/// A cell as one number.
pub open spec fn cell_key(column: int, row: int) -> u32 {
    (0x1_0000 * narrow(column) + narrow(row)) as u32
}

fn narrowed(value: i32) -> (axis: u32)
    ensures
        axis == narrow(value as int),
        axis < 0x1_0000,
{
    if value < -0x8000 {
        0x8000
    } else if value < 0 {
        (value + 0x1_0000) as u32
    } else if value <= 0x7fff {
        value as u32
    } else {
        0x7fff
    }
}

/// A cell as one number. Sixteen bits an axis reaches nearly ten metres either
/// way, which is further than any printer moves, and halves what a file's
/// answer costs to keep.
pub fn key(column: i32, row: i32) -> (cell: u32)
    ensures
        cell == cell_key(column as int, row as int),
{
    0x1_0000 * narrowed(column) + narrowed(row)
}

/// Two cells within the grid's reach share a number only if they are the same.
pub proof fn cells_within_reach_are_told_apart(a: (int, int), b: (int, int))
    requires
        -0x8000 <= a.0 <= 0x7fff,
        -0x8000 <= a.1 <= 0x7fff,
        -0x8000 <= b.0 <= 0x7fff,
        -0x8000 <= b.1 <= 0x7fff,
        cell_key(a.0, a.1) == cell_key(b.0, b.1),
    ensures
        a == b,
{
}

/// The cells a path passes through, in order and without repeating the one
/// before, given the one it comes from.
pub open spec fn visited(path: Seq<(i32, i32)>, last: Option<u32>) -> Seq<u32>
    decreases path.len(),
{
    if path.len() == 0 {
        seq![]
    } else {
        let before = visited(path.drop_last(), last);
        let cell = cell_key(path.last().0 as int, path.last().1 as int);
        let previous = if before.len() > 0 {
            Some(before.last())
        } else {
            last
        };
        if previous == Some(cell) {
            before
        } else {
            before.push(cell)
        }
    }
}

/// A cell's number holds its column above its row, sixteen bits each, those below
/// zero counted down from the top. Past the edge of what sixteen bits reach there
/// are no further cells.
pub proof fn a_cells_number_holds_its_column_and_row(column: int, row: int)
    ensures
        -32768 <= column <= 32767 ==> cell_key(column, row) as int / 65536 == column % 65536,
        -32768 <= row <= 32767 ==> cell_key(column, row) as int % 65536 == row % 65536,
        column > 32767 ==> cell_key(column, row) == cell_key(32767, row),
        column < -32768 ==> cell_key(column, row) == cell_key(-32768, row),
        row > 32767 ==> cell_key(column, row) == cell_key(column, 32767),
        row < -32768 ==> cell_key(column, row) == cell_key(column, -32768),
{
    assert(0 <= narrow(column) < 65536);
    assert(0 <= narrow(row) < 65536);
    assert(cell_key(column, row) as int == 65536 * narrow(column) + narrow(row));
}

/// The cell a place lies in.
pub open spec fn cell_at(place: (i32, i32)) -> u32 {
    cell_key(place.0 as int, place.1 as int)
}

proof fn lemma_last_visited(path: Seq<(i32, i32)>)
    requires
        path.len() > 0,
    ensures
        visited(path, None).len() > 0,
        visited(path, None).last() == cell_at(path.last()),
    decreases path.len(),
{
}

/// A path that goes on gains the cell it comes to, unless it was in that cell
/// already.
pub proof fn a_path_gains_each_cell_it_enters(path: Seq<(i32, i32)>, place: (i32, i32))
    ensures
        visited(path.push(place), None) == if path.len() > 0 && cell_at(path.last()) == cell_at(
            place,
        ) {
            visited(path, None)
        } else {
            visited(path, None).push(cell_at(place))
        },
{
    assert(path.push(place).drop_last() =~= path);
    if path.len() > 0 {
        lemma_last_visited(path);
    }
}

/// No cell of a path is its neighbour in the list.
pub proof fn a_cell_is_not_listed_twice_running(path: Seq<(i32, i32)>, i: int)
    requires
        0 <= i,
        i + 1 < visited(path, None).len(),
    ensures
        visited(path, None)[i] != visited(path, None)[i + 1],
    decreases path.len(),
{
    let before = visited(path.drop_last(), None);
    if i + 1 < before.len() {
        a_cell_is_not_listed_twice_running(path.drop_last(), i);
    }
}

/// Appends the cells a path passes through, in order and without repeating the
/// one before.
pub fn cells(path: &[(i32, i32)], found: &mut Vec<u32>)
    ensures
        final(found)@ == old(found)@ + visited(path@, None),
{
    let ghost before = found@;
    let mut last: Option<u32> = None;
    let mut i: usize = 0;
    assert(before + visited(path@.take(0), None) =~= before);
    while i < path.len()
        invariant
            i <= path.len(),
            ({
                let so_far = visited(path@.take(i as int), None);
                &&& found@ == before + so_far
                &&& last == if so_far.len() > 0 {
                    Some(so_far.last())
                } else {
                    None
                }
            }),
        decreases path.len() - i,
    {
        assert(path@.take(i + 1).drop_last() =~= path@.take(i as int));
        let (column, row) = path[i];
        let cell = key(column, row);
        let repeats = match last {
            Some(last) => last == cell,
            None => false,
        };
        if !repeats {
            found.push(cell);
            last = Some(cell);
        }
        i = i + 1;
        assert(found@ =~= before + visited(path@.take(i as int), None));
    }
    assert(path@.take(path@.len() as int) =~= path@);
}

/// A straight walk over the grid, one cell to the side or up at a time. Which of
/// the two comes next is for the caller to say; the walk knows where it ends.
pub struct Walk {
    column: i32,
    row: i32,
    last: (i32, i32),
    /// Whether the columns rise along the walk, and the rows.
    right: bool,
    up: bool,
    steps: usize,
}

/// A coordinate one step on. It stays on the edge of what can be counted, which
/// is far off the edge of the grid.
pub open spec fn stepped(at: int, rises: bool) -> int {
    if rises {
        if at < i32::MAX {
            at + 1
        } else {
            at
        }
    } else {
        if at > i32::MIN {
            at - 1
        } else {
            at
        }
    }
}

fn step(at: i32, rises: bool) -> (next: i32)
    ensures
        next == stepped(at as int, rises),
{
    if rises {
        if at < i32::MAX {
            at + 1
        } else {
            at
        }
    } else {
        if at > i32::MIN {
            at - 1
        } else {
            at
        }
    }
}

impl Walk {
    /// Where the walk stands.
    pub closed spec fn place(self) -> (i32, i32) {
        (self.column, self.row)
    }

    /// Where it is headed.
    pub closed spec fn goal(self) -> (i32, i32) {
        self.last
    }

    /// Which way its columns and rows go.
    pub closed spec fn heading(self) -> (bool, bool) {
        (self.right, self.up)
    }

    /// How many steps it has taken.
    pub closed spec fn taken(self) -> nat {
        self.steps as nat
    }

    /// The walk has arrived, or is longer than any move a printer makes.
    pub open spec fn over(self) -> bool {
        self.place() == self.goal() || self.taken() >= MAX_CELLS
    }

    pub fn new(from: (i32, i32), to: (i32, i32), right: bool, up: bool) -> (walk: Self)
        ensures
            walk.place() == from,
            walk.goal() == to,
            walk.heading() == (right, up),
            walk.taken() == 0,
    {
        Walk { column: from.0, row: from.1, last: to, right, up, steps: 0 }
    }

    pub fn here(&self) -> (place: (i32, i32))
        ensures
            place == self.place(),
    {
        (self.column, self.row)
    }

    pub fn is_over(&self) -> (over: bool)
        ensures
            over == self.over(),
    {
        (self.column == self.last.0 && self.row == self.last.1) || self.steps >= MAX_CELLS
    }

    /// Goes one cell to the side, or one up or down.
    pub fn go(&mut self, sideways: bool)
        requires
            !old(self).over(),
        ensures
            final(self).goal() == old(self).goal(),
            final(self).heading() == old(self).heading(),
            final(self).taken() == old(self).taken() + 1,
            final(self).taken() <= MAX_CELLS,
            final(self).place().0 == if sideways {
                stepped(old(self).place().0 as int, old(self).heading().0)
            } else {
                old(self).place().0 as int
            },
            final(self).place().1 == if sideways {
                old(self).place().1 as int
            } else {
                stepped(old(self).place().1 as int, old(self).heading().1)
            },
    {
        if sideways {
            self.column = step(self.column, self.right);
        } else {
            self.row = step(self.row, self.up);
        }
        self.steps = self.steps + 1;
    }
}

/// A step of a walk takes it one cell in the direction it is headed, and back
/// where the direction is turned round; only at the end of what can be counted
/// does it stay.
pub proof fn a_step_goes_one_cell_and_back(at: int)
    requires
        -0x8000_0000 < at < 0x7fff_ffff,
    ensures
        stepped(at, true) == at + 1,
        stepped(at, false) == at - 1,
        stepped(stepped(at, true), false) == at,
        stepped(stepped(at, false), true) == at,
        stepped(0x7fff_ffff, true) == 0x7fff_ffff,
        stepped(-0x8000_0000, false) == -0x8000_0000,
        stepped(0x7fff_ffff, false) == 0x7fff_fffe,
        stepped(-0x8000_0000, true) == -0x7fff_ffff,
{
}

/// A walk ends on its goal or after eight thousand one hundred and ninety-two
/// steps, and not before.
pub proof fn a_walk_ends_on_its_goal(walk: Walk)
    ensures
        walk.over() == (walk.place() == walk.goal() || walk.taken() >= 8192),
{
}

/// The numbers rise, so none comes up twice.
pub open spec fn rising(keys: Seq<u32>) -> bool {
    forall|i: int, j: int| 0 <= i < j < keys.len() ==> keys[i] < keys[j]
}

/// The cells a set of paths passes through.
///
/// Kept sorted once [`Cells::settle`] has run, which is what makes membership a
/// binary search and the difference of two layers a single merge.
#[derive(Clone, Debug)]
pub struct Cells {
    keys: Vec<u32>,
}

impl View for Cells {
    type V = Set<u32>;

    closed spec fn view(&self) -> Set<u32> {
        self.keys@.to_set()
    }
}

/// The numbers of two rising runs in one.
fn merged(a: &Vec<u32>, b: &Vec<u32>) -> (keys: Vec<u32>)
    requires
        rising(a@),
        rising(b@),
    ensures
        rising(keys@),
        keys@.to_set() == a@.to_set() + b@.to_set(),
{
    let mut keys: Vec<u32> = Vec::new();
    let mut i: usize = 0;
    let mut j: usize = 0;
    while i < a.len() || j < b.len()
        invariant
            i <= a.len(),
            j <= b.len(),
            rising(a@),
            rising(b@),
            rising(keys@),
            forall|k: int| 0 <= k < keys@.len() && i < a@.len() ==> #[trigger] keys@[k] < a@[
                i as int
            ],
            forall|k: int| 0 <= k < keys@.len() && j < b@.len() ==> #[trigger] keys@[k] < b@[
                j as int
            ],
            forall|k: int| 0 <= k < i ==> keys@.contains(#[trigger] a@[k]),
            forall|k: int| 0 <= k < j ==> keys@.contains(#[trigger] b@[k]),
            forall|k: int|
                0 <= k < keys@.len() ==> a@.contains(#[trigger] keys@[k]) || b@.contains(keys@[k]),
        decreases a.len() - i + b.len() - j,
    {
        let ghost before = keys@;
        let ghost (was_i, was_j) = (i, j);
        let key = if j == b.len() || (i < a.len() && a[i] <= b[j]) {
            a[i]
        } else {
            b[j]
        };
        if i < a.len() && a[i] == key {
            i = i + 1;
        }
        if j < b.len() && b[j] == key {
            j = j + 1;
        }
        keys.push(key);
        proof {
            assert(keys@[before.len() as int] == key);
            assert forall|k: int| 0 <= k < i implies keys@.contains(#[trigger] a@[k]) by {
                if k < was_i {
                    let at = choose|at: int| 0 <= at < before.len() && before[at] == a@[k];
                    assert(keys@[at] == a@[k]);
                } else {
                    assert(keys@[before.len() as int] == a@[k]);
                }
            }
            assert forall|k: int| 0 <= k < j implies keys@.contains(#[trigger] b@[k]) by {
                if k < was_j {
                    let at = choose|at: int| 0 <= at < before.len() && before[at] == b@[k];
                    assert(keys@[at] == b@[k]);
                } else {
                    assert(keys@[before.len() as int] == b@[k]);
                }
            }
        }
    }
    proof {
        let whole = a@.to_set() + b@.to_set();
        assert forall|key: u32| keys@.to_set().contains(key) == whole.contains(key) by {
            if keys@.contains(key) {
                let k = choose|k: int| 0 <= k < keys@.len() && keys@[k] == key;
                assert(a@.contains(keys@[k]) || b@.contains(keys@[k]));
            }
            if a@.contains(key) {
                let k = choose|k: int| 0 <= k < a@.len() && a@[k] == key;
                assert(keys@.contains(a@[k]));
            }
            if b@.contains(key) {
                let k = choose|k: int| 0 <= k < b@.len() && b@[k] == key;
                assert(keys@.contains(b@[k]));
            }
        }
        assert(keys@.to_set() =~= whole);
    }
    keys
}

/// The numbers of a run in rising order, each once.
fn ordered(keys: &[u32]) -> (sorted: Vec<u32>)
    ensures
        rising(sorted@),
        sorted@.to_set() == keys@.to_set(),
    decreases keys@.len(),
{
    if keys.len() < 2 {
        let sorted = slice_to_vec(keys);
        assert(sorted@ =~= keys@);
        return sorted;
    }
    let middle = keys.len() / 2;
    let left = ordered(slice_subrange(keys, 0, middle));
    let right = ordered(slice_subrange(keys, middle, keys.len()));
    proof {
        let a = keys@.subrange(0, middle as int);
        let b = keys@.subrange(middle as int, keys@.len() as int);
        assert forall|key: u32|
            keys@.to_set().contains(key) == (a.to_set() + b.to_set()).contains(key) by {
            if keys@.contains(key) {
                let k = choose|k: int| 0 <= k < keys@.len() && keys@[k] == key;
                if k < middle {
                    assert(a[k] == key);
                } else {
                    assert(b[k - middle] == key);
                }
            }
            if a.contains(key) {
                let k = choose|k: int| 0 <= k < a.len() && a[k] == key;
                assert(keys@[k] == key);
            }
            if b.contains(key) {
                let k = choose|k: int| 0 <= k < b.len() && b[k] == key;
                assert(keys@[k + middle] == key);
            }
        }
        assert(keys@.to_set() =~= a.to_set() + b.to_set());
    }
    merged(&left, &right)
}

impl Cells {
    /// The set can be searched and compared.
    pub closed spec fn settled(self) -> bool {
        rising(self.keys@)
    }

    /// The cells in the order they are held, repeats and all.
    pub closed spec fn sequence(self) -> Seq<u32> {
        self.keys@
    }

    /// No cells at all.
    pub fn new() -> (cells: Self)
        ensures
            cells@ == Set::<u32>::empty(),
            cells.settled(),
            cells.sequence() == Seq::<u32>::empty(),
    {
        let cells = Cells { keys: Vec::new() };
        assert(cells.keys@.to_set() =~= Set::<u32>::empty());
        cells
    }

    pub fn is_empty(&self) -> (empty: bool)
        ensures
            empty == (self@ == Set::<u32>::empty()),
            empty == (self.sequence().len() == 0),
    {
        let empty = self.keys.len() == 0;
        proof {
            if empty {
                assert(self.keys@.to_set() =~= Set::<u32>::empty());
            } else {
                assert(self.keys@.to_set().contains(self.keys@[0]));
            }
        }
        empty
    }

    /// How many cells are held, repeats counted until the set is settled.
    pub fn len(&self) -> (count: usize)
        ensures
            count == self.sequence().len(),
            self.settled() ==> count == self@.len(),
    {
        proof {
            if self.settled() {
                self.keys@.unique_seq_to_set();
            }
        }
        self.keys.len()
    }

    /// Records the cells of a path, in order and without repeating the one
    /// before.
    pub fn draw(&mut self, path: &[(i32, i32)])
        ensures
            final(self).sequence() == old(self).sequence() + visited(path@, None),
            final(self)@ == old(self)@ + visited(path@, None).to_set(),
    {
        let ghost before = self.keys@;
        cells(path, &mut self.keys);
        proof {
            lemma_concat_set(before, visited(path@, None));
        }
    }

    /// The cells, in the order they are held.
    pub fn keys(&self) -> (keys: &[u32])
        ensures
            keys@ == self.sequence(),
            keys@.to_set() == self@,
            self.settled() == rising(keys@),
    {
        self.keys.as_slice()
    }

    /// Orders the cells so the set can be searched and compared.
    pub fn settle(&mut self)
        ensures
            final(self).settled(),
            final(self)@ == old(self)@,
    {
        self.keys = ordered(self.keys.as_slice());
    }

    /// Empties the set but keeps what it allocated, so reading a layer costs
    /// nothing the layer before it has already paid for.
    pub fn clear(&mut self)
        ensures
            final(self)@ == Set::<u32>::empty(),
            final(self).settled(),
            final(self).sequence() == Seq::<u32>::empty(),
    {
        self.keys.clear();
        assert(self.keys@.to_set() =~= Set::<u32>::empty());
    }

    /// True when this set holds a cell. Only meaningful once [`Cells::settle`]
    /// has run.
    pub fn has(&self, cell: u32) -> (held: bool)
        requires
            self.settled(),
        ensures
            held == self@.contains(cell),
    {
        let mut low: usize = 0;
        let mut high: usize = self.keys.len();
        while low < high
            invariant
                low <= high <= self.keys.len(),
                rising(self.keys@),
                forall|i: int| 0 <= i < low ==> #[trigger] self.keys@[i] < cell,
                forall|i: int| high <= i < self.keys@.len() ==> #[trigger] self.keys@[i] > cell,
            decreases high - low,
        {
            let middle = low + (high - low) / 2;
            let found = self.keys[middle];
            if found == cell {
                assert(self.keys@.contains(cell));
                return true;
            }
            if found < cell {
                low = middle + 1;
            } else {
                high = middle;
            }
        }
        assert(!self.keys@.contains(cell));
        false
    }

    /// True when a place of the grid is a cell this set holds. Only meaningful
    /// once [`Cells::settle`] has run.
    pub fn holds(&self, column: i32, row: i32) -> (held: bool)
        requires
            self.settled(),
        ensures
            held == self@.contains(cell_key(column as int, row as int)),
    {
        self.has(key(column, row))
    }

    /// The cells of this set that `other` does not hold. Both must be settled.
    pub fn without(&self, other: &Cells) -> (left: Cells)
        requires
            self.settled(),
            other.settled(),
        ensures
            left.settled(),
            left@ == self@.difference(other@),
    {
        let mut keys: Vec<u32> = Vec::new();
        let mut at: usize = 0;
        let mut i: usize = 0;
        while i < self.keys.len()
            invariant
                i <= self.keys.len(),
                at <= other.keys.len(),
                rising(self.keys@),
                rising(other.keys@),
                rising(keys@),
                forall|k: int| 0 <= k < at && i < self.keys@.len() ==> #[trigger] other.keys@[k]
                    < self.keys@[i as int],
                forall|k: int| 0 <= k < keys@.len() && i < self.keys@.len() ==> #[trigger] keys@[k]
                    < self.keys@[i as int],
                forall|k: int|
                    0 <= k < i ==> (keys@.contains(#[trigger] self.keys@[k])
                        == !other.keys@.contains(self.keys@[k])),
                forall|k: int|
                    0 <= k < keys@.len() ==> self.keys@.contains(#[trigger] keys@[k])
                        && !other.keys@.contains(keys@[k]),
            decreases self.keys.len() - i,
        {
            let cell = self.keys[i];
            while at < other.keys.len() && other.keys[at] < cell
                invariant
                    at <= other.keys.len(),
                    forall|k: int| 0 <= k < at ==> #[trigger] other.keys@[k] < cell,
                decreases other.keys.len() - at,
            {
                at = at + 1;
            }
            let ghost before = keys@;
            let shared = at < other.keys.len() && other.keys[at] == cell;
            proof {
                assert(shared == other.keys@.contains(cell)) by {
                    if other.keys@.contains(cell) {
                        let k = choose|k: int|
                            0 <= k < other.keys@.len() && other.keys@[k] == cell;
                        assert(k >= at);
                    }
                }
            }
            if !shared {
                keys.push(cell);
            }
            proof {
                assert(self.keys@.contains(cell));
                assert forall|k: int| 0 <= k < i + 1 implies keys@.contains(
                    #[trigger] self.keys@[k],
                ) == !other.keys@.contains(self.keys@[k]) by {
                    if k < i {
                        if before.contains(self.keys@[k]) {
                            let p = choose|p: int|
                                0 <= p < before.len() && before[p] == self.keys@[k];
                            assert(keys@[p] == self.keys@[k]);
                        }
                        if keys@.contains(self.keys@[k]) {
                            let p = choose|p: int|
                                0 <= p < keys@.len() && keys@[p] == self.keys@[k];
                            assert(self.keys@[k] < cell);
                            assert(before[p] == self.keys@[k]);
                        }
                    } else if !shared {
                        assert(keys@[before.len() as int] == cell);
                    } else {
                        assert(!keys@.contains(cell));
                    }
                }
            }
            i = i + 1;
        }
        let left = Cells { keys };
        proof {
            let whole = self@.difference(other@);
            assert forall|cell: u32| left@.contains(cell) == whole.contains(cell) by {
                if left.keys@.contains(cell) {
                    let k = choose|k: int| 0 <= k < left.keys@.len() && left.keys@[k] == cell;
                    assert(self.keys@.contains(left.keys@[k]));
                }
                if self.keys@.contains(cell) {
                    let k = choose|k: int| 0 <= k < self.keys@.len() && self.keys@[k] == cell;
                    assert(left.keys@.contains(self.keys@[k]) == !other.keys@.contains(
                        self.keys@[k],
                    ));
                }
            }
            assert(left@ =~= whole);
        }
        left
    }

    /// Hands the cells over and leaves this set empty, so a layer's footprint
    /// can become the layer below's without copying it.
    pub fn take(&mut self) -> (cells: Cells)
        ensures
            cells@ == old(self)@,
            cells.sequence() == old(self).sequence(),
            cells.settled() == old(self).settled(),
            final(self)@ == Set::<u32>::empty(),
            final(self).settled(),
            final(self).sequence() == Seq::<u32>::empty(),
    {
        let mut keys: Vec<u32> = Vec::new();
        std::mem::swap(&mut keys, &mut self.keys);
        assert(self.keys@.to_set() =~= Set::<u32>::empty());
        Cells { keys }
    }
}

impl Default for Cells {
    fn default() -> (cells: Self)
        ensures
            cells@ == Set::<u32>::empty(),
            cells.settled(),
    {
        Cells::new()
    }
}

proof fn lemma_concat_set(a: Seq<u32>, b: Seq<u32>)
    ensures
        (a + b).to_set() == a.to_set() + b.to_set(),
{
    assert forall|key: u32|
        (a + b).to_set().contains(key) == (a.to_set() + b.to_set()).contains(key) by {
        if (a + b).contains(key) {
            let k = choose|k: int| 0 <= k < (a + b).len() && (a + b)[k] == key;
            if k < a.len() {
                assert(a[k] == key);
            } else {
                assert(b[k - a.len()] == key);
            }
        }
        if a.contains(key) {
            let k = choose|k: int| 0 <= k < a.len() && a[k] == key;
            assert((a + b)[k] == key);
        }
        if b.contains(key) {
            let k = choose|k: int| 0 <= k < b.len() && b[k] == key;
            assert((a + b)[k + a.len()] == key);
        }
    }
    assert((a + b).to_set() =~= a.to_set() + b.to_set());
}

} // verus!
