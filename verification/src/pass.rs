//! The collision pass: which pairs of particles are handed to the pairwise
//! kernel in one sub-step, and in which order.

use vstd::prelude::*;
use crate::cell::{moore, neighbours, Cell};
use crate::grid::{bucket_of, grid_of, lemma_grid_has_no_empty_bucket, SpatialGrid};

verus! {

/// Two particle indices, the lower one first.
pub type Pair = (usize, usize);

/// The pair of `a` and `b`, the lower index first.
pub open spec fn ordered(a: usize, b: usize) -> Pair {
    if a < b {
        (a, b)
    } else {
        (b, a)
    }
}

/// The first candidate paired with each of the others, in their order.
pub open spec fn anchor_pairs(candidates: Seq<usize>) -> Seq<Pair> {
    if candidates.len() == 0 {
        Seq::empty()
    } else {
        Seq::new((candidates.len() - 1) as nat, |j: int| ordered(candidates[0], candidates[j + 1]))
    }
}

/// The pairs of one tile: each of the first `locals` candidates in turn is
/// the anchor, is paired with all candidates after it and then leaves the
/// candidates.
pub open spec fn tile_pairs(candidates: Seq<usize>, locals: nat) -> Seq<Pair>
    decreases locals,
{
    if locals == 0 || candidates.len() == 0 {
        Seq::empty()
    } else {
        anchor_pairs(candidates) + tile_pairs(candidates.drop_first(), (locals - 1) as nat)
    }
}

/// Pairs the anchor `indices[0]` with every other entry of `indices`.
///
/// The pairs come in the order of `indices`; within a pair the lower index
/// stands first, which is how a slice is split to borrow both particles.
pub fn collide_one_to_many(indices: &Vec<usize>) -> (pairs: Vec<Pair>)
    ensures
        pairs@ == anchor_pairs(indices@),
{
    let mut pairs: Vec<Pair> = Vec::new();
    if indices.len() == 0 {
        return pairs;
    }
    let anchor = indices[0];
    let mut j: usize = 1;
    while j < indices.len()
        invariant
            1 <= j <= indices.len(),
            anchor == indices[0],
            pairs@ == anchor_pairs(indices@).take(j - 1),
        decreases indices.len() - j,
    {
        let other = indices[j];
        if anchor < other {
            pairs.push((anchor, other));
        } else {
            pairs.push((other, anchor));
        }
        j = j + 1;
    }
    pairs
}

/// Appends the pairs of one tile to `out`.
fn resolve_tile(candidates: Vec<usize>, locals: usize, out: &mut Vec<Pair>)
    ensures
        final(out)@ == old(out)@ + tile_pairs(candidates@, locals as nat),
{
    let ghost all = candidates@;
    let mut candidates = candidates;
    let mut anchored: usize = 0;
    while anchored < locals && candidates.len() > 0
        invariant
            anchored <= locals,
            old(out)@ + tile_pairs(all, locals as nat) == out@ + tile_pairs(
                candidates@,
                (locals - anchored) as nat,
            ),
        decreases locals - anchored,
    {
        let mut pairs = collide_one_to_many(&candidates);
        proof {
            assert(candidates@.remove(0) == candidates@.drop_first());
        }
        out.append(&mut pairs);
        candidates.remove(0);
        anchored = anchored + 1;
    }
}

/// The cells that have been current before step `k` of a pass that takes
/// the cells in the order `order`.
pub open spec fn visited(order: Seq<Cell>, k: int) -> Set<Cell> {
    order.take(k).to_set()
}

/// The bucket of `c`, unless `c` is among the cells in `done`.
pub open spec fn live_bucket(cells: Seq<Cell>, done: Set<Cell>, c: Cell) -> Seq<usize> {
    if done.contains(c) {
        Seq::empty()
    } else {
        bucket_of(cells, c)
    }
}

/// The buckets of the cells `around`, one after the other, leaving out the
/// cells in `done`.
pub open spec fn gather(cells: Seq<Cell>, done: Set<Cell>, around: Seq<Cell>) -> Seq<usize>
    decreases around.len(),
{
    if around.len() == 0 {
        Seq::empty()
    } else {
        gather(cells, done, around.drop_last()) + live_bucket(cells, done, around.last())
    }
}

/// The particles of the cell that is current at step `k`. There are none if
/// that cell has been current before.
pub open spec fn step_locals(cells: Seq<Cell>, order: Seq<Cell>, k: int) -> Seq<usize> {
    live_bucket(cells, visited(order, k), order[k])
}

/// The candidates of step `k`: the particles of the current cell, then those
/// of each neighbouring cell that has not been current yet.
pub open spec fn step_candidates(cells: Seq<Cell>, order: Seq<Cell>, k: int) -> Seq<usize> {
    step_locals(cells, order, k) + gather(cells, visited(order, k + 1), moore(order[k]))
}

/// The pairs of step `k`: every particle of the current cell against every
/// other candidate. Two particles of neighbouring cells are not paired here.
pub open spec fn step_pairs(cells: Seq<Cell>, order: Seq<Cell>, k: int) -> Seq<Pair> {
    tile_pairs(step_candidates(cells, order, k), step_locals(cells, order, k).len())
}

/// The pairs of the first `k` steps.
pub open spec fn pairs_upto(cells: Seq<Cell>, order: Seq<Cell>, k: nat) -> Seq<Pair>
    decreases k,
{
    if k == 0 {
        Seq::empty()
    } else {
        pairs_upto(cells, order, (k - 1) as nat) + step_pairs(cells, order, k - 1)
    }
}

/// The pairs of a whole pass over particles in the cells `cells`, in the
/// order in which they are resolved, when the cells are taken in the order
/// `order`.
pub open spec fn schedule(cells: Seq<Cell>, order: Seq<Cell>) -> Seq<Pair> {
    pairs_upto(cells, order, order.len())
}

/// Every cell that holds a particle is listed in `order`.
pub open spec fn covers(cells: Seq<Cell>, order: Seq<Cell>) -> bool {
    forall|i: int| 0 <= i < cells.len() ==> order.contains(#[trigger] cells[i])
}

/// Taking one more step marks the cell of that step.
pub proof fn lemma_visited_next(order: Seq<Cell>, k: int)
    requires
        0 <= k < order.len(),
    ensures
        visited(order, k + 1) == visited(order, k).insert(order[k]),
{
    let before = order.take(k);
    let after = order.take(k + 1);
    assert(after == before.push(order[k]));
    assert forall|c: Cell| after.contains(c) <==> (before.contains(c) || c == order[k]) by {
        if before.contains(c) {
            let j = choose|j: int| 0 <= j < before.len() && before[j] == c;
            assert(after[j] == c);
        }
        if c == order[k] {
            assert(after[k] == c);
        }
    }
    assert(visited(order, k + 1) =~= visited(order, k).insert(order[k]));
}

/// Appends the items of `src` to `dst`.
fn append_indices(dst: &mut Vec<usize>, src: &Vec<usize>)
    ensures
        final(dst)@ == old(dst)@ + src@,
{
    let mut i: usize = 0;
    while i < src.len()
        invariant
            i <= src.len(),
            dst@ == old(dst)@ + src@.take(i as int),
        decreases src.len() - i,
    {
        dst.push(src[i]);
        proof {
            assert(src@.take(i + 1) == src@.take(i as int).push(src@[i as int]));
        }
        i = i + 1;
    }
    proof {
        assert(src@.take(src.len() as int) == src@);
    }
}

/// Appends to `candidates` the particles of the cells around `c` that are
/// still in the grid.
fn collect_around(
    cells: &Vec<Cell>,
    grid: &SpatialGrid,
    done: Ghost<Set<Cell>>,
    c: Cell,
    candidates: &mut Vec<usize>,
)
    requires
        grid@ == grid_of(cells@).remove_keys(done@),
    ensures
        final(candidates)@ == old(candidates)@ + gather(cells@, done@, moore(c)),
{
    let around = neighbours(c);
    let mut t: usize = 0;
    proof {
        assert(cells@.len() == cells.len());
    }
    while t < around.len()
        invariant
            t <= around.len(),
            cells@.len() <= usize::MAX,
            grid@ == grid_of(cells@).remove_keys(done@),
            candidates@ == old(candidates)@ + gather(cells@, done@, around@.take(t as int)),
        decreases around.len() - t,
    {
        let n = around[t];
        if let Some(bucket) = grid.bucket(n) {
            append_indices(candidates, bucket);
        }
        proof {
            lemma_grid_has_no_empty_bucket(cells@, n);
            assert(around@.take(t + 1).drop_last() == around@.take(t as int));
        }
        t = t + 1;
    }
    proof {
        assert(around@.take(around.len() as int) == around@);
    }
}

/// Takes step `k` of the pass: the cell `order[k]` becomes current, leaves
/// the grid, and its pairs are appended to `pairs`.
fn take_step(
    cells: &Vec<Cell>,
    grid: &mut SpatialGrid,
    order: &Vec<Cell>,
    k: usize,
    pairs: &mut Vec<Pair>,
)
    requires
        k < order.len(),
        old(grid)@ == grid_of(cells@).remove_keys(visited(order@, k as int)),
    ensures
        final(grid)@ == grid_of(cells@).remove_keys(visited(order@, k + 1)),
        final(pairs)@ == old(pairs)@ + step_pairs(cells@, order@, k as int),
{
    let c = order[k];
    proof {
        assert(cells@.len() == cells.len());
        lemma_visited_next(order@, k as int);
        lemma_grid_has_no_empty_bucket(cells@, c);
    }
    let local = grid.take(c);
    proof {
        assert(grid@ =~= grid_of(cells@).remove_keys(visited(order@, k + 1)));
    }
    match local {
        None => {
            assert(step_locals(cells@, order@, k as int).len() == 0);
        },
        Some(local) => {
            let locals = local.len();
            let mut candidates = local;
            collect_around(cells, grid, Ghost(visited(order@, k + 1)), c, &mut candidates);
            resolve_tile(candidates, locals, pairs);
        },
    }
}

/// Runs the pass over a freshly built grid.
pub(crate) fn run_pass(cells: &Vec<Cell>, grid: SpatialGrid, order: &Vec<Cell>) -> (pairs: Vec<Pair>)
    requires
        grid@ == grid_of(cells@),
    ensures
        pairs@ == schedule(cells@, order@),
{
    let mut grid = grid;
    let mut pairs: Vec<Pair> = Vec::new();
    let mut k: usize = 0;
    proof {
        assert(grid@ =~= grid_of(cells@).remove_keys(visited(order@, 0)));
    }
    while k < order.len()
        invariant
            k <= order.len(),
            grid@ == grid_of(cells@).remove_keys(visited(order@, k as int)),
            pairs@ == pairs_upto(cells@, order@, k as nat),
        decreases order.len() - k,
    {
        take_step(cells, &mut grid, order, k, &mut pairs);
        k = k + 1;
    }
    pairs
}

/// The pairs of one collision pass, in the order in which they are to be
/// resolved, when the occupied cells are taken in the order `order`.
///
/// `cells[i]` is the cell of particle `i`. A cell that `order` names and
/// that holds no particle, or that `order` has named before, adds nothing.
pub fn pairs_in_order(cells: &Vec<Cell>, order: &Vec<Cell>) -> (pairs: Vec<Pair>)
    ensures
        pairs@ == schedule(cells@, order@),
{
    let grid = SpatialGrid::build(cells);
    run_pass(cells, grid, order)
}

} // verus!
