//! The collision resolver's pair selection: the pass over the grid, and the
//! scan over all pairs that it stands in for.

use vstd::prelude::*;
use crate::cell::{is_near, Cell};
use crate::coverage::{lemma_pass_resolves_near_pairs_once, near_pairs};
use crate::grid::{grid_of, lemma_grid_has_no_empty_bucket, SpatialGrid};
use crate::pass::{covers, run_pass, schedule, Pair};

verus! {

/// `order` names each cell that holds a particle once, and no other cell.
pub open spec fn walks(cells: Seq<Cell>, order: Seq<Cell>) -> bool {
    &&& order.no_duplicates()
    &&& forall|c: Cell| order.contains(c) <==> cells.contains(c)
}

/// `pairs` is what a pass yields for one of the orders in which the occupied
/// cells can be walked.
pub open spec fn is_pass(cells: Seq<Cell>, pairs: Seq<Pair>) -> bool {
    exists|order: Seq<Cell>| walks(cells, order) && pairs == schedule(cells, order)
}

/// The order of pairs by first index, then by second.
pub open spec fn pair_before(p: Pair, q: Pair) -> bool {
    p.0 < q.0 || (p.0 == q.0 && p.1 < q.1)
}

/// An order that walks the occupied cells covers them.
pub proof fn lemma_walk_covers(cells: Seq<Cell>, order: Seq<Cell>)
    requires
        walks(cells, order),
    ensures
        covers(cells, order),
{
    assert forall|i: int| 0 <= i < cells.len() implies order.contains(#[trigger] cells[i]) by {
        assert(cells.contains(cells[i]));
    }
}

/// The pairs of one collision pass, in the order in which they are to be
/// resolved. `cells[i]` is the cell of particle `i`.
///
/// The grid is built afresh and its cells are taken in the order in which
/// the hash map walks them, so two calls may order the pairs differently.
/// Whatever the order, each pair of particles in the same or in adjacent
/// cells comes once, the lower index first, and no other pair comes.
pub fn collision_pairs(cells: &Vec<Cell>) -> (pairs: Vec<Pair>)
    ensures
        is_pass(cells@, pairs@),
        pairs@.no_duplicates(),
        pairs@.to_set() == near_pairs(cells@),
{
    let grid = SpatialGrid::build(cells);
    let order = grid.occupied_cells();
    proof {
        assert(cells@.len() == cells.len());
        assert forall|c: Cell| order@.contains(c) <==> cells@.contains(c) by {
            lemma_grid_has_no_empty_bucket(cells@, c);
            assert(order@.to_set().contains(c) <==> grid_of(cells@).dom().contains(c));
        }
        lemma_walk_covers(cells@, order@);
        lemma_pass_resolves_near_pairs_once(cells@, order@);
    }
    run_pass(cells, grid, &order)
}

/// The pairs of particles in the same or in adjacent cells, found by
/// comparing every particle with every later one. The pairs come sorted by
/// first index, then by second.
pub fn scan_pairs(cells: &Vec<Cell>) -> (pairs: Vec<Pair>)
    ensures
        pairs@.to_set() == near_pairs(cells@),
        forall|a: int, b: int| 0 <= a < b < pairs.len() ==> pair_before(pairs[a], pairs[b]),
{
    let mut pairs: Vec<Pair> = Vec::new();
    let n = cells.len();
    let mut i: usize = 0;
    while i < n
        invariant
            i <= n,
            n == cells.len(),
            forall|p: Pair| pairs@.contains(p) <==> (near_pairs(cells@).contains(p) && p.0 < i),
            forall|a: int, b: int| 0 <= a < b < pairs.len() ==> pair_before(pairs[a], pairs[b]),
        decreases n - i,
    {
        let mut j: usize = i + 1;
        while j < n
            invariant
                i < j <= n,
                n == cells.len(),
                forall|p: Pair|
                    pairs@.contains(p) <==> (near_pairs(cells@).contains(p) && (p.0 < i || (p.0 == i
                        && p.1 < j))),
                forall|a: int, b: int| 0 <= a < b < pairs.len() ==> pair_before(pairs[a], pairs[b]),
            decreases n - j,
        {
            if is_near(cells[i], cells[j]) {
                let ghost before = pairs@;
                pairs.push((i, j));
                proof {
                    assert forall|p: Pair|
                        pairs@.contains(p) <==> (near_pairs(cells@).contains(p) && (p.0 < i || (p.0
                            == i && p.1 < j + 1))) by {
                        if before.contains(p) {
                            let a = choose|a: int| 0 <= a < before.len() && before[a] == p;
                            assert(pairs@[a] == p);
                        }
                        if p == (i, j) {
                            assert(pairs@[before.len() as int] == p);
                        }
                    }
                    assert forall|a: int, b: int| 0 <= a < b < pairs.len() implies pair_before(
                        pairs[a],
                        pairs[b],
                    ) by {
                        if b == before.len() {
                            assert(before.contains(before[a]));
                        }
                    }
                }
            }
            j = j + 1;
        }
        i = i + 1;
    }
    proof {
        assert(pairs@.to_set() =~= near_pairs(cells@));
    }
    pairs
}

} // verus!
