//! Why a cell is one diameter wide: two circles that overlap lie in the same
//! cell or in adjacent cells, so a pass over the grid misses no overlap.
//!
//! The statements here are over positions in whole units, where they are
//! exact. They say nothing of positions in floating point, whose cells and
//! distances are rounded.

use vstd::prelude::*;
use vstd::arithmetic::div_mod::{lemma_fundamental_div_mod, lemma_mod_bound};
use crate::cell::{near, Cell};
use crate::coverage::{lemma_pass_resolves_near_pairs_once, near_pairs};
use crate::pass::{covers, schedule, Pair};

verus! {

/// A position in the plane, in whole units.
pub type Point = (int, int);

/// Two circles of diameter `diameter` around `a` and `b` overlap: their
/// centres are less than a diameter apart.
pub open spec fn overlap(a: Point, b: Point, diameter: int) -> bool {
    (a.0 - b.0) * (a.0 - b.0) + (a.1 - b.1) * (a.1 - b.1) < diameter * diameter
}

/// The cell of a position: each coordinate divided by the diameter and
/// rounded down.
pub open spec fn cell_at(p: Point, diameter: int) -> Point {
    (p.0 / diameter, p.1 / diameter)
}

/// `cells` holds the cell of each position.
pub open spec fn placed(positions: Seq<Point>, diameter: int, cells: Seq<Cell>) -> bool {
    &&& cells.len() == positions.len()
    &&& forall|i: int|
        0 <= i < positions.len() ==> (#[trigger] cells[i]).0 == cell_at(positions[i], diameter).0
            && cells[i].1 == cell_at(positions[i], diameter).1
}

/// The pairs of circles that overlap, found by comparing every circle with
/// every later one.
pub open spec fn colliding(positions: Seq<Point>, diameter: int) -> Set<Pair> {
    Set::new(
        |p: Pair|
            p.0 < p.1 < positions.len() && overlap(
                positions[p.0 as int],
                positions[p.1 as int],
                diameter,
            ),
    )
}

/// The pairs of circles that overlap among the pairs `pairs`.
pub open spec fn detected(pairs: Seq<Pair>, positions: Seq<Point>, diameter: int) -> Set<Pair> {
    Set::new(
        |p: Pair|
            pairs.contains(p) && overlap(positions[p.0 as int], positions[p.1 as int], diameter),
    )
}

/// Two coordinates less than a diameter apart fall into the same column of
/// cells or into adjacent columns.
proof fn lemma_close_columns(x: int, y: int, diameter: int)
    requires
        diameter > 0,
        (x - y) * (x - y) < diameter * diameter,
    ensures
        -1 <= x / diameter - y / diameter <= 1,
{
    let d = diameter;
    let qx = x / d;
    let qy = y / d;
    lemma_fundamental_div_mod(x, d);
    lemma_fundamental_div_mod(y, d);
    lemma_mod_bound(x, d);
    lemma_mod_bound(y, d);
    assert(-d < x - y < d) by (nonlinear_arith)
        requires
            d > 0,
            (x - y) * (x - y) < d * d,
    ;
    assert(x - y == d * (qx - qy) + (x % d - y % d)) by (nonlinear_arith)
        requires
            x == d * qx + x % d,
            y == d * qy + y % d,
    ;
    if qx - qy >= 2 {
        assert(d * (qx - qy) >= 2 * d) by (nonlinear_arith)
            requires
                d > 0,
                qx - qy >= 2,
        ;
    }
    if qx - qy <= -2 {
        assert(d * (qx - qy) <= -2 * d) by (nonlinear_arith)
            requires
                d > 0,
                qx - qy <= -2,
        ;
    }
}

/// Two circles that overlap lie in the same cell or in adjacent cells.
pub proof fn lemma_overlap_is_near(a: Point, b: Point, diameter: int)
    requires
        diameter > 0,
        overlap(a, b, diameter),
    ensures
        -1 <= cell_at(a, diameter).0 - cell_at(b, diameter).0 <= 1,
        -1 <= cell_at(a, diameter).1 - cell_at(b, diameter).1 <= 1,
{
    let dx = a.0 - b.0;
    let dy = a.1 - b.1;
    assert(dx * dx >= 0 && dy * dy >= 0) by (nonlinear_arith);
    lemma_close_columns(a.0, b.0, diameter);
    lemma_close_columns(a.1, b.1, diameter);
}

/// The overlaps that a pass over the grid detects are the overlaps that a
/// scan over all pairs detects.
pub proof fn lemma_pass_detects_what_a_scan_detects(
    positions: Seq<Point>,
    diameter: int,
    cells: Seq<Cell>,
    order: Seq<Cell>,
)
    requires
        diameter > 0,
        positions.len() <= usize::MAX,
        placed(positions, diameter, cells),
        covers(cells, order),
    ensures
        detected(schedule(cells, order), positions, diameter) == colliding(positions, diameter),
{
    let pairs = schedule(cells, order);
    lemma_pass_resolves_near_pairs_once(cells, order);
    assert forall|p: Pair|
        detected(pairs, positions, diameter).contains(p) <==> colliding(positions, diameter).contains(
            p,
        ) by {
        assert(pairs.contains(p) <==> pairs.to_set().contains(p));
        assert(pairs.to_set().contains(p) <==> near_pairs(cells).contains(p));
        if colliding(positions, diameter).contains(p) {
            lemma_overlap_is_near(positions[p.0 as int], positions[p.1 as int], diameter);
            assert(near(cells[p.0 as int], cells[p.1 as int]));
        }
    }
    assert(detected(pairs, positions, diameter) =~= colliding(positions, diameter));
}

} // verus!
