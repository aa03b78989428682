//! Grid cells and their Moore neighbourhood.

use vstd::prelude::*;
use crate::seq_facts::{lemma_concat_contains, lemma_concat_no_duplicates};

verus! {

/// A grid cell: the floor of a position divided by the particle diameter,
/// one coordinate per axis.
pub type Cell = (i32, i32);

/// The cell `c` shifted by `(dx, dy)`, where that cell has `i32` coordinates.
pub open spec fn shifted(c: Cell, dx: int, dy: int) -> Option<Cell> {
    if i32::MIN <= c.0 + dx <= i32::MAX && i32::MIN <= c.1 + dy <= i32::MAX {
        Some(((c.0 + dx) as i32, (c.1 + dy) as i32))
    } else {
        None
    }
}

/// Two distinct cells that touch along an edge or at a corner.
pub open spec fn adjacent(a: Cell, b: Cell) -> bool {
    &&& a != b
    &&& -1 <= a.0 - b.0 <= 1
    &&& -1 <= a.1 - b.1 <= 1
}

/// Two cells close enough for circles in them to overlap: the same cell, or
/// adjacent ones.
pub open spec fn near(a: Cell, b: Cell) -> bool {
    &&& -1 <= a.0 - b.0 <= 1
    &&& -1 <= a.1 - b.1 <= 1
}

/// Whether two cells are the same or adjacent.
pub fn is_near(a: Cell, b: Cell) -> (r: bool)
    ensures
        r == near(a, b),
{
    let dx: i64 = a.0 as i64 - b.0 as i64;
    let dy: i64 = a.1 as i64 - b.1 as i64;
    -1 <= dx && dx <= 1 && -1 <= dy && dy <= 1
}

/// Zero or one cell, as a sequence.
pub open spec fn cell_seq(c: Option<Cell>) -> Seq<Cell> {
    match c {
        Some(c) => seq![c],
        None => Seq::empty(),
    }
}

/// The Moore neighbourhood of `c`, row by row from the row below to the row
/// above and within a row from left to right. A cell at the rim of the `i32`
/// range has fewer than eight neighbours.
pub open spec fn moore(c: Cell) -> Seq<Cell> {
    cell_seq(shifted(c, -1, -1)) + cell_seq(shifted(c, 0, -1)) + cell_seq(shifted(c, 1, -1))
        + cell_seq(shifted(c, -1, 0)) + cell_seq(shifted(c, 1, 0))
        + cell_seq(shifted(c, -1, 1)) + cell_seq(shifted(c, 0, 1)) + cell_seq(shifted(c, 1, 1))
}

/// `c` shifted by `(dx, dy)`, where that cell has `i32` coordinates.
pub fn shift(c: Cell, dx: i32, dy: i32) -> (r: Option<Cell>)
    ensures
        r == shifted(c, dx as int, dy as int),
{
    match (c.0.checked_add(dx), c.1.checked_add(dy)) {
        (Some(x), Some(y)) => Some((x, y)),
        _ => None,
    }
}

/// Appends `c` shifted by `(dx, dy)` to `out`, where that cell exists.
fn push_shifted(out: &mut Vec<Cell>, c: Cell, dx: i32, dy: i32)
    ensures
        final(out)@ == old(out)@ + cell_seq(shifted(c, dx as int, dy as int)),
{
    if let Some(n) = shift(c, dx, dy) {
        out.push(n);
    }
}

/// The cells around `cell`: its Moore neighbourhood in row-major order.
pub fn neighbours(cell: Cell) -> (r: Vec<Cell>)
    ensures
        r@ == moore(cell),
{
    let mut r: Vec<Cell> = Vec::new();
    push_shifted(&mut r, cell, -1, -1);
    push_shifted(&mut r, cell, 0, -1);
    push_shifted(&mut r, cell, 1, -1);
    push_shifted(&mut r, cell, -1, 0);
    push_shifted(&mut r, cell, 1, 0);
    push_shifted(&mut r, cell, -1, 1);
    push_shifted(&mut r, cell, 0, 1);
    push_shifted(&mut r, cell, 1, 1);
    r
}

/// The Moore neighbourhood of a cell holds exactly the cells adjacent to it.
pub proof fn lemma_moore_members(c: Cell, d: Cell)
    ensures
        moore(c).contains(d) <==> adjacent(c, d),
{
    let p0 = cell_seq(shifted(c, -1, -1));
    let p1 = cell_seq(shifted(c, 0, -1));
    let p2 = cell_seq(shifted(c, 1, -1));
    let p3 = cell_seq(shifted(c, -1, 0));
    let p4 = cell_seq(shifted(c, 1, 0));
    let p5 = cell_seq(shifted(c, -1, 1));
    let p6 = cell_seq(shifted(c, 0, 1));
    let p7 = cell_seq(shifted(c, 1, 1));
    lemma_concat_contains(p0, p1, d);
    lemma_concat_contains(p0 + p1, p2, d);
    lemma_concat_contains(p0 + p1 + p2, p3, d);
    lemma_concat_contains(p0 + p1 + p2 + p3, p4, d);
    lemma_concat_contains(p0 + p1 + p2 + p3 + p4, p5, d);
    lemma_concat_contains(p0 + p1 + p2 + p3 + p4 + p5, p6, d);
    lemma_concat_contains(p0 + p1 + p2 + p3 + p4 + p5 + p6, p7, d);
    lemma_cell_seq_contains(shifted(c, -1, -1), d);
    lemma_cell_seq_contains(shifted(c, 0, -1), d);
    lemma_cell_seq_contains(shifted(c, 1, -1), d);
    lemma_cell_seq_contains(shifted(c, -1, 0), d);
    lemma_cell_seq_contains(shifted(c, 1, 0), d);
    lemma_cell_seq_contains(shifted(c, -1, 1), d);
    lemma_cell_seq_contains(shifted(c, 0, 1), d);
    lemma_cell_seq_contains(shifted(c, 1, 1), d);
}

/// A sequence of at most one cell holds that cell and no other.
proof fn lemma_cell_seq_contains(o: Option<Cell>, d: Cell)
    ensures
        cell_seq(o).contains(d) <==> o == Some(d),
{
    if o == Some(d) {
        assert(cell_seq(o)[0] == d);
    }
}

/// The place of `d` in the row-major order of the cells around `c`.
spec fn rank(c: Cell, d: Cell) -> int {
    (d.1 - c.1) * 3 + (d.0 - c.0)
}

/// Appending the cell at `(dx, dy)` to cells of lower rank repeats no cell.
proof fn lemma_append_ranked(acc: Seq<Cell>, c: Cell, dx: int, dy: int)
    requires
        -1 <= dx <= 1,
        -1 <= dy <= 1,
        acc.no_duplicates(),
        forall|d: Cell| acc.contains(d) ==> rank(c, d) < dy * 3 + dx,
    ensures
        (acc + cell_seq(shifted(c, dx, dy))).no_duplicates(),
        forall|d: Cell|
            (acc + cell_seq(shifted(c, dx, dy))).contains(d) ==> rank(c, d) <= dy * 3 + dx,
{
    let part = cell_seq(shifted(c, dx, dy));
    assert forall|d: Cell| (acc + part).contains(d) implies rank(c, d) <= dy * 3 + dx by {
        lemma_concat_contains(acc, part, d);
        lemma_cell_seq_contains(shifted(c, dx, dy), d);
    }
    assert forall|d: Cell| acc.contains(d) implies !part.contains(d) by {
        lemma_cell_seq_contains(shifted(c, dx, dy), d);
    }
    lemma_concat_no_duplicates(acc, part);
}

/// The Moore neighbourhood of a cell names no cell twice.
pub proof fn lemma_moore_no_duplicates(c: Cell)
    ensures
        moore(c).no_duplicates(),
{
    let a0 = Seq::<Cell>::empty();
    let a1 = a0 + cell_seq(shifted(c, -1, -1));
    let a2 = a1 + cell_seq(shifted(c, 0, -1));
    let a3 = a2 + cell_seq(shifted(c, 1, -1));
    let a4 = a3 + cell_seq(shifted(c, -1, 0));
    let a5 = a4 + cell_seq(shifted(c, 1, 0));
    let a6 = a5 + cell_seq(shifted(c, -1, 1));
    let a7 = a6 + cell_seq(shifted(c, 0, 1));
    let a8 = a7 + cell_seq(shifted(c, 1, 1));
    lemma_append_ranked(a0, c, -1, -1);
    lemma_append_ranked(a1, c, 0, -1);
    lemma_append_ranked(a2, c, 1, -1);
    lemma_append_ranked(a3, c, -1, 0);
    lemma_append_ranked(a4, c, 1, 0);
    lemma_append_ranked(a5, c, -1, 1);
    lemma_append_ranked(a6, c, 0, 1);
    lemma_append_ranked(a7, c, 1, 1);
    assert(a1 == cell_seq(shifted(c, -1, -1)));
    assert(a8 == moore(c));
}

} // verus!
