//! The spatial hash grid: which particles lie in which cell.

use vstd::prelude::*;
use crate::cell::Cell;
use crate::cell_map::{
    buckets, cell_map_get, cell_map_insert, cell_map_keys, cell_map_new, cell_map_remove, CellMap,
};

verus! {

/// The indices below `n` of the particles that lie in cell `c`, ascending.
/// `cells[i]` is the cell of particle `i`.
pub open spec fn bucket_upto(cells: Seq<Cell>, c: Cell, n: nat) -> Seq<usize>
    decreases n,
{
    if n == 0 {
        Seq::empty()
    } else if cells[n - 1] == c {
        bucket_upto(cells, c, (n - 1) as nat).push((n - 1) as usize)
    } else {
        bucket_upto(cells, c, (n - 1) as nat)
    }
}

/// The indices of all particles that lie in cell `c`, ascending.
pub open spec fn bucket_of(cells: Seq<Cell>, c: Cell) -> Seq<usize> {
    bucket_upto(cells, c, cells.len())
}

/// The grid of the first `n` particles: one bucket for each cell that holds
/// at least one of them.
pub open spec fn grid_upto(cells: Seq<Cell>, n: nat) -> Map<Cell, Seq<usize>> {
    Map::new(|c: Cell| cells.take(n as int).contains(c), |c: Cell| bucket_upto(cells, c, n))
}

/// The grid of all particles.
pub open spec fn grid_of(cells: Seq<Cell>) -> Map<Cell, Seq<usize>> {
    grid_upto(cells, cells.len())
}

/// A bucket holds exactly the particles of its cell.
pub proof fn lemma_bucket_members(cells: Seq<Cell>, c: Cell, n: nat, i: usize)
    requires
        n <= cells.len() <= usize::MAX,
    ensures
        bucket_upto(cells, c, n).contains(i) <==> (i < n && cells[i as int] == c),
    decreases n,
{
    if n > 0 {
        lemma_bucket_members(cells, c, (n - 1) as nat, i);
        let front = bucket_upto(cells, c, (n - 1) as nat);
        let whole = bucket_upto(cells, c, n);
        let last = (n - 1) as usize;
        if cells[n - 1] == c {
            assert(whole == front.push(last));
            if whole.contains(i) {
                let j = choose|j: int| 0 <= j < whole.len() && whole[j] == i;
                if j < front.len() {
                    assert(front[j] == i);
                    assert(front.contains(i));
                }
            }
            if front.contains(i) {
                let j = choose|j: int| 0 <= j < front.len() && front[j] == i;
                assert(whole[j] == i);
            }
            if i == last {
                assert(whole[front.len() as int] == i);
            }
        }
    }
}

/// A bucket lists its particles in ascending order, so none twice.
pub proof fn lemma_bucket_ascending(cells: Seq<Cell>, c: Cell, n: nat)
    requires
        n <= cells.len() <= usize::MAX,
    ensures
        forall|a: int, b: int|
            0 <= a < b < bucket_upto(cells, c, n).len() ==> bucket_upto(cells, c, n)[a]
                < bucket_upto(cells, c, n)[b],
        bucket_upto(cells, c, n).no_duplicates(),
    decreases n,
{
    if n > 0 {
        lemma_bucket_ascending(cells, c, (n - 1) as nat);
        let front = bucket_upto(cells, c, (n - 1) as nat);
        assert forall|a: int| 0 <= a < front.len() implies front[a] < n - 1 by {
            assert(front.contains(front[a]));
            lemma_bucket_members(cells, c, (n - 1) as nat, front[a]);
        }
    }
}

/// A cell has a bucket in the grid exactly if it holds a particle, and the
/// bucket is then not empty.
pub proof fn lemma_grid_has_no_empty_bucket(cells: Seq<Cell>, c: Cell)
    requires
        cells.len() <= usize::MAX,
    ensures
        grid_of(cells).contains_key(c) <==> cells.contains(c),
        grid_of(cells).contains_key(c) <==> bucket_of(cells, c).len() > 0,
{
    let b = bucket_of(cells, c);
    assert(cells.take(cells.len() as int) == cells);
    if cells.contains(c) {
        let j = choose|j: int| 0 <= j < cells.len() && cells[j] == c;
        lemma_bucket_members(cells, c, cells.len(), j as usize);
        assert(b.contains(j as usize));
    }
    if b.len() > 0 {
        assert(b.contains(b[0]));
        lemma_bucket_members(cells, c, cells.len(), b[0]);
        assert(cells[b[0] as int] == c);
    }
}

/// Every particle lies in exactly one bucket of the grid, the bucket of its
/// cell, and is listed there once.
pub proof fn lemma_particle_in_one_bucket(cells: Seq<Cell>, i: usize, c: Cell)
    requires
        cells.len() <= usize::MAX,
    ensures
        (grid_of(cells).contains_key(c) && grid_of(cells)[c].contains(i)) <==> (i < cells.len()
            && cells[i as int] == c),
        grid_of(cells).contains_key(c) ==> grid_of(cells)[c].no_duplicates(),
{
    lemma_bucket_members(cells, c, cells.len(), i);
    lemma_bucket_ascending(cells, c, cells.len());
    lemma_grid_has_no_empty_bucket(cells, c);
    if i < cells.len() && cells[i as int] == c {
        assert(cells.contains(c));
    }
}

/// A uniform grid over the plane: for each cell that holds a particle, the
/// indices of the particles in it.
pub struct SpatialGrid {
    map: CellMap,
}

impl SpatialGrid {
    /// The buckets of the grid, by cell.
    pub closed spec fn view(&self) -> Map<Cell, Seq<usize>> {
        buckets(self.map)
    }

    /// Buckets the particles by cell. `cells[i]` is the cell of particle `i`.
    pub fn build(cells: &Vec<Cell>) -> (grid: SpatialGrid)
        ensures
            grid@ == grid_of(cells@),
    {
        let mut map = cell_map_new();
        let mut i: usize = 0;
        while i < cells.len()
            invariant
                i <= cells.len(),
                buckets(map) == grid_upto(cells@, i as nat),
            decreases cells.len() - i,
        {
            let c = cells[i];
            let mut bucket = match cell_map_remove(&mut map, c) {
                Some(bucket) => bucket,
                None => Vec::new(),
            };
            proof {
                let held = bucket_upto(cells@, c, i as nat);
                if held.len() > 0 {
                    lemma_bucket_members(cells@, c, i as nat, held[0]);
                    assert(held.contains(held[0]));
                    assert(cells@.take(i as int)[held[0] as int] == c);
                }
                assert(bucket@ == held);
            }
            bucket.push(i);
            cell_map_insert(&mut map, c, bucket);
            proof {
                let before = grid_upto(cells@, i as nat);
                let after = grid_upto(cells@, (i + 1) as nat);
                assert(cells@.take(i + 1) == cells@.take(i as int).push(c));
                assert forall|d: Cell| after.contains_key(d) <==> (d == c || before.contains_key(d)) by {
                    if cells@.take(i as int).contains(d) {
                        let j = choose|j: int| 0 <= j < i && cells@.take(i as int)[j] == d;
                        assert(cells@.take(i + 1)[j] == d);
                    }
                    if d == c {
                        assert(cells@.take(i + 1)[i as int] == c);
                    }
                }
                assert forall|d: Cell| after.contains_key(d) implies #[trigger] buckets(map)[d]
                    == after[d] by {}
                assert(buckets(map) =~= after);
            }
            i = i + 1;
        }
        SpatialGrid { map }
    }

    /// The cells that hold a particle, each once, in the order in which the
    /// underlying map walks them.
    pub fn occupied_cells(&self) -> (r: Vec<Cell>)
        ensures
            r@.no_duplicates(),
            r@.to_set() == self@.dom(),
    {
        cell_map_keys(&self.map)
    }

    /// The bucket of `cell`, if the cell holds a particle.
    pub fn bucket(&self, cell: Cell) -> (r: Option<&Vec<usize>>)
        ensures
            r.is_some() == self@.contains_key(cell),
            r.is_some() ==> r.unwrap()@ == self@[cell],
    {
        cell_map_get(&self.map, cell)
    }

    /// Takes the bucket of `cell` out of the grid, if the cell holds a
    /// particle. The other buckets stay.
    pub fn take(&mut self, cell: Cell) -> (r: Option<Vec<usize>>)
        ensures
            final(self)@ == old(self)@.remove(cell),
            r.is_some() == old(self)@.contains_key(cell),
            r.is_some() ==> r.unwrap()@ == old(self)@[cell],
    {
        cell_map_remove(&mut self.map, cell)
    }
}

} // verus!
