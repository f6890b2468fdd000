use bricklayers::footprint::cells;
use bricklayers::footprint::key;
use bricklayers::footprint::Cells;
use bricklayers::footprint::Walk;
use bricklayers::footprint::MAX_CELLS;
use std::f64::consts::TAU;

/// Grid cell, in mm.
const CELL: f64 = 0.3;

/// Sampling step along an arc.
const STEP: f64 = CELL / 2.0;

/// Grid coordinates per mm.
const PER_MM: f64 = 1.0 / CELL;

/// The centre and direction of a `G2`/`G3`, taken from its `I`/`J` offsets.
#[derive(Clone, Copy, Debug)]
struct Arc {
    i: f64,
    j: f64,
    clockwise: bool,
}

/// The places of the grid a move passes through, in order.
///
/// Arcs are followed round rather than cut across. A slicer with arc fitting on
/// draws a whole ring as two or three `G2`s, and taking their chords would say
/// the ring covers nothing at all.
fn trace(from: (f64, f64), to: (f64, f64), arc: Option<Arc>) -> Vec<(i32, i32)> {
    if let Some((centre, radius, start, sweep)) = arc.and_then(|arc| turn(from, to, arc)) {
        let steps = samples(radius * sweep.abs());
        let mut path = vec![(floor(from.0 * PER_MM), floor(from.1 * PER_MM))];
        for step in 1..steps {
            let angle = start + sweep * step as f64 / steps as f64;
            path.push((
                floor((centre.0 + radius * angle.cos()) * PER_MM),
                floor((centre.1 + radius * angle.sin()) * PER_MM),
            ));
        }
        path.push((floor(to.0 * PER_MM), floor(to.1 * PER_MM)));
        return path;
    }
    straight(from, to)
}

/// Walks the cells a straight move crosses, stepping over one grid line at a
/// time rather than sampling: it visits exactly the cells the segment touches,
/// and the inner loop is a comparison and an addition.
fn straight(from: (f64, f64), to: (f64, f64)) -> Vec<(i32, i32)> {
    let (x0, y0) = (from.0 * PER_MM, from.1 * PER_MM);
    let (x1, y1) = (to.0 * PER_MM, to.1 * PER_MM);
    let (column, row) = (floor(x0), floor(y0));
    let mut path = vec![(column, row)];
    if !(x0.is_finite() && y0.is_finite() && x1.is_finite() && y1.is_finite()) {
        return path;
    }

    let (dx, dy) = (x1 - x0, y1 - y0);
    let mut walk = Walk::new((column, row), (floor(x1), floor(y1)), dx > 0.0, dy > 0.0);
    // How far along the move the next grid line each way lies, as a fraction of
    // the whole move, and how far apart the ones after it are.
    let mut next_column = boundary(x0, dx, column);
    let mut next_row = boundary(y0, dy, row);
    let along_column = (1.0 / dx).abs();
    let along_row = (1.0 / dy).abs();
    while !walk.is_over() {
        let sideways = next_column < next_row;
        if sideways {
            next_column += along_column;
        } else {
            next_row += along_row;
        }
        walk.go(sideways);
        path.push(walk.here());
    }
    path
}

/// How far along a move its first grid line lies, as a fraction of the move.
fn boundary(at: f64, delta: f64, cell: i32) -> f64 {
    if delta == 0.0 {
        return f64::INFINITY;
    }
    let edge = if delta > 0.0 {
        cell as f64 + 1.0
    } else {
        cell as f64
    };
    (edge - at) / delta
}

/// Centre, radius, opening angle and swept angle of an arc, or `None` where the
/// `I`/`J` offsets do not describe one.
fn turn(from: (f64, f64), to: (f64, f64), arc: Arc) -> Option<((f64, f64), f64, f64, f64)> {
    let centre = (from.0 + arc.i, from.1 + arc.j);
    let radius = arc.i.hypot(arc.j);
    if !radius.is_finite() || radius <= 0.0 {
        return None;
    }
    let start = (from.1 - centre.1).atan2(from.0 - centre.0);
    let end = (to.1 - centre.1).atan2(to.0 - centre.0);
    let mut sweep = if arc.clockwise {
        start - end
    } else {
        end - start
    };
    if !sweep.is_finite() {
        return None;
    }
    // Both angles come out of `atan2` in (-π, π], so their difference is
    // already inside one turn and a single wrap settles it. A full circle
    // arrives as zero, which is the one case that has to become a whole turn
    // rather than nothing.
    if sweep <= 0.0 {
        sweep += TAU;
    }
    Some((
        centre,
        radius,
        start,
        if arc.clockwise { -sweep } else { sweep },
    ))
}

fn samples(length: f64) -> usize {
    if !length.is_finite() || length <= STEP {
        return 1;
    }
    ((length / STEP).ceil() as usize).clamp(1, MAX_CELLS)
}

/// `as` saturates, and a coordinate that is not a number lands in a corner of
/// the grid with it instead of in somebody else's cell.
fn floor(grid: f64) -> i32 {
    if grid.is_nan() {
        return i32::MIN;
    }
    grid.floor() as i32
}

fn cells_of(from: (f64, f64), to: (f64, f64), arc: Option<Arc>) -> Cells {
    let mut cells = Cells::default();
    cells.draw(&trace(from, to, arc));
    cells.settle();
    cells
}

fn holds(cells: &Cells, x: f64, y: f64) -> bool {
    cells.holds(floor(x * PER_MM), floor(y * PER_MM))
}

#[test]
fn a_straight_move_covers_every_cell_it_crosses() {
    let cells = cells_of((0.0, 0.0), (3.0, 0.0), None);
    for step in 0..30 {
        let x = step as f64 / 10.0;
        assert!(holds(&cells, x, 0.0), "gap at {x}");
    }
    assert!(!holds(&cells, 1.5, 1.0));
}

#[test]
fn a_full_circle_arc_covers_the_ring_and_not_its_chord() {
    // A ring drawn as one G3 back to its own start: the chord is a point,
    // so a tracer that took it would report almost nothing covered.
    let arc = Some(Arc {
        i: 5.0,
        j: 0.0,
        clockwise: false,
    });
    let cells = cells_of((0.0, 0.0), (0.0, 0.0), arc);
    for step in 0..36 {
        let angle = TAU * step as f64 / 36.0;
        let (x, y) = (5.0 + 5.0 * angle.cos(), 5.0 * angle.sin());
        assert!(holds(&cells, x, y), "gap at {angle}");
    }
    assert!(
        !holds(&cells, 5.0, 0.0),
        "the middle of the ring is not on it"
    );
}

#[test]
fn an_arc_turns_the_way_its_command_says() {
    let centre = Arc {
        i: 0.0,
        j: 1.0,
        clockwise: false,
    };
    // Half a circle from the bottom of it to the top: turning the way the
    // angle increases passes the right-hand side, the other way the left.
    let widdershins = cells_of((0.0, 0.0), (0.0, 2.0), Some(centre));
    let clockwise = cells_of(
        (0.0, 0.0),
        (0.0, 2.0),
        Some(Arc {
            clockwise: true,
            ..centre
        }),
    );
    assert!(holds(&widdershins, 1.0, 1.0));
    assert!(!holds(&widdershins, -1.0, 1.0));
    assert!(holds(&clockwise, -1.0, 1.0));
    assert!(!holds(&clockwise, 1.0, 1.0));
}

#[test]
fn the_same_path_gives_the_same_cells_whichever_end_it_started_from() {
    let out = cells_of((0.0, 0.0), (7.3, 2.9), None);
    let back = cells_of((7.3, 2.9), (0.0, 0.0), None);
    assert_eq!(out.keys(), back.keys());
}

#[test]
fn a_difference_keeps_only_what_the_other_set_misses() {
    let mine = cells_of((0.0, 0.0), (3.0, 0.0), None);
    let theirs = cells_of((0.0, 0.0), (1.0, 0.0), None);
    let left = mine.without(&theirs);
    assert!(!holds(&left, 0.5, 0.0));
    assert!(holds(&left, 2.5, 0.0));
}

#[test]
fn a_move_no_printer_could_make_is_not_an_allocation() {
    let mut cells = Cells::default();
    cells.draw(&trace((0.0, 0.0), (1e18, 1e18), None));
    cells.draw(&trace((0.0, 0.0), (f64::NAN, f64::INFINITY), None));
    assert!(cells.len() <= MAX_CELLS * 2 + 4);
}

#[test]
fn a_cell_is_two_axes_of_sixteen_bits() {
    assert_eq!(key(0, 0), 0);
    assert_eq!(key(1, 2), 0x0001_0002);
    assert_eq!(key(-1, -2), 0xffff_fffe);
    // Out of reach lands on the edge of the grid.
    assert_eq!(key(i32::MAX, i32::MIN), 0x7fff_8000);
}

#[test]
fn a_path_does_not_repeat_the_cell_before() {
    let mut found = vec![9];
    cells(&[(0, 0), (0, 0), (0, 1), (0, 0), (0, 0)], &mut found);
    assert_eq!(found, [9, 0, 1, 0]);
}

#[test]
fn settling_orders_the_cells_and_keeps_each_once() {
    let mut set = Cells::new();
    assert!(set.is_empty());
    set.draw(&[(2, 0), (1, 0), (2, 0), (0, 0)]);
    assert_eq!(set.len(), 4);
    set.settle();
    assert_eq!(set.keys(), [key(0, 0), key(1, 0), key(2, 0)]);
    assert!(set.has(key(1, 0)) && !set.has(key(3, 0)));

    let taken = set.take();
    assert!(set.is_empty());
    assert_eq!(taken.len(), 3);
    set.draw(&[(1, 0)]);
    set.settle();
    assert_eq!(taken.without(&set).keys(), [key(0, 0), key(2, 0)]);
    set.clear();
    assert!(set.is_empty());
}

/// A walk goes one cell at a time towards its end, and never further than any
/// move a printer makes.
#[test]
fn a_walk_ends_where_it_was_headed_or_at_its_limit() {
    let mut walk = Walk::new((0, 0), (2, -1), true, false);
    walk.go(true);
    walk.go(false);
    assert_eq!(walk.here(), (1, -1));
    assert!(!walk.is_over());
    walk.go(true);
    assert!(walk.is_over());
    assert!(Walk::new((3, 3), (3, 3), true, true).is_over());

    let mut astray = Walk::new((i32::MAX, 0), (0, 9), true, true);
    let mut steps = 0;
    while !astray.is_over() {
        astray.go(true);
        steps += 1;
    }
    assert_eq!(steps, MAX_CELLS);
    assert_eq!(astray.here(), (i32::MAX, 0));
}

#[test]
fn a_coordinate_that_is_no_number_lands_in_a_corner() {
    assert_eq!(floor(f64::NAN), i32::MIN);
    assert_eq!(floor(f64::INFINITY), i32::MAX);
    assert_eq!(key(floor(f64::NAN), floor(-1e30)), key(-40_000, -40_000));
}
