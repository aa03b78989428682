//! What a collision pass covers: every pair of particles in the same or in
//! adjacent cells, once.

use vstd::prelude::*;
use crate::cell::{adjacent, lemma_moore_members, lemma_moore_no_duplicates, moore, near, Cell};
use crate::grid::{lemma_bucket_ascending, lemma_bucket_members};
use crate::pass::{
    anchor_pairs, covers, gather, lemma_visited_next, live_bucket, ordered, pairs_upto, schedule,
    step_candidates, step_locals, step_pairs, tile_pairs, visited, Pair,
};
use crate::seq_facts::{lemma_concat_contains, lemma_concat_no_duplicates};

verus! {

/// What `gather` collects: the particles whose cell is among `around` and
/// not among `done`.
pub proof fn lemma_gather_members(cells: Seq<Cell>, done: Set<Cell>, around: Seq<Cell>, i: usize)
    requires
        cells.len() <= usize::MAX,
    ensures
        gather(cells, done, around).contains(i) <==> (i < cells.len() && around.contains(
            cells[i as int],
        ) && !done.contains(cells[i as int])),
    decreases around.len(),
{
    if around.len() > 0 {
        let front = around.drop_last();
        let last = around.last();
        lemma_gather_members(cells, done, front, i);
        lemma_concat_contains(gather(cells, done, front), live_bucket(cells, done, last), i);
        lemma_bucket_members(cells, last, cells.len(), i);
        assert(around == front.push(last));
        if i < cells.len() {
            lemma_concat_contains(front, seq![last], cells[i as int]);
            assert(front.push(last) == front + seq![last]);
            assert(seq![last].contains(cells[i as int]) <==> cells[i as int] == last) by {
                assert(seq![last][0] == last);
            }
        }
    }
}

/// `gather` over cells that are named once each collects no particle twice.
pub proof fn lemma_gather_no_duplicates(cells: Seq<Cell>, done: Set<Cell>, around: Seq<Cell>)
    requires
        cells.len() <= usize::MAX,
        around.no_duplicates(),
    ensures
        gather(cells, done, around).no_duplicates(),
    decreases around.len(),
{
    if around.len() > 0 {
        let front = around.drop_last();
        let last = around.last();
        lemma_gather_no_duplicates(cells, done, front);
        lemma_bucket_ascending(cells, last, cells.len());
        let a = gather(cells, done, front);
        let b = live_bucket(cells, done, last);
        assert forall|i: usize| a.contains(i) implies !b.contains(i) by {
            lemma_gather_members(cells, done, front, i);
            lemma_bucket_members(cells, last, cells.len(), i);
            if front.contains(last) {
                let j = choose|j: int| 0 <= j < front.len() && front[j] == last;
                assert(around[j] == around[around.len() - 1]);
            }
        }
        lemma_concat_no_duplicates(a, b);
    }
}

/// The place of a pair among the pairs of a tile: the candidate at `a` is
/// the anchor, the one at `b` comes after it.
pub open spec fn pair_at(candidates: Seq<usize>, a: int, b: int, p: Pair) -> bool {
    0 <= a < b < candidates.len() && p == ordered(candidates[a], candidates[b])
}

/// A pair of the anchor is the anchor with a later candidate.
proof fn lemma_anchor_pairs_members(candidates: Seq<usize>, p: Pair)
    ensures
        anchor_pairs(candidates).contains(p) <==> exists|b: int| pair_at(candidates, 0, b, p),
{
    let pairs = anchor_pairs(candidates);
    if pairs.contains(p) {
        let j = choose|j: int| 0 <= j < pairs.len() && pairs[j] == p;
        assert(pair_at(candidates, 0, j + 1, p));
    }
    if exists|b: int| pair_at(candidates, 0, b, p) {
        let b = choose|b: int| pair_at(candidates, 0, b, p);
        assert(pairs[b - 1] == p);
    }
}

/// The pairs of a tile are those of an anchor among the first `locals`
/// candidates with a candidate after it.
pub proof fn lemma_tile_pairs_members(candidates: Seq<usize>, locals: nat, p: Pair)
    ensures
        tile_pairs(candidates, locals).contains(p) <==> exists|a: int, b: int|
            a < locals && pair_at(candidates, a, b, p),
    decreases locals,
{
    if locals == 0 || candidates.len() == 0 {
    } else {
        let rest = candidates.drop_first();
        lemma_tile_pairs_members(rest, (locals - 1) as nat, p);
        lemma_anchor_pairs_members(candidates, p);
        lemma_concat_contains(anchor_pairs(candidates), tile_pairs(rest, (locals - 1) as nat), p);
        if exists|b: int| pair_at(candidates, 0, b, p) {
            let b = choose|b: int| pair_at(candidates, 0, b, p);
            assert(0 < locals && pair_at(candidates, 0, b, p));
        }
        if exists|a: int, b: int| a < locals - 1 && pair_at(rest, a, b, p) {
            let (a, b) = choose|a: int, b: int| a < locals - 1 && pair_at(rest, a, b, p);
            assert(a + 1 < locals && pair_at(candidates, a + 1, b + 1, p));
        }
        if exists|a: int, b: int| a < locals && pair_at(candidates, a, b, p) {
            let (a, b) = choose|a: int, b: int| a < locals && pair_at(candidates, a, b, p);
            if a == 0 {
                assert(pair_at(candidates, 0, b, p));
            } else {
                assert(a - 1 < locals - 1 && pair_at(rest, a - 1, b - 1, p));
            }
        }
    }
}

/// Two different places in a tile of distinct candidates hold different
/// pairs.
proof fn lemma_pair_at_unique(candidates: Seq<usize>, a: int, b: int, c: int, d: int, p: Pair)
    requires
        candidates.no_duplicates(),
        pair_at(candidates, a, b, p),
        pair_at(candidates, c, d, p),
    ensures
        a == c,
        b == d,
{
}

/// A tile of distinct candidates yields no pair twice, and no particle is
/// paired with itself.
pub proof fn lemma_tile_pairs_no_duplicates(candidates: Seq<usize>, locals: nat)
    requires
        candidates.no_duplicates(),
    ensures
        tile_pairs(candidates, locals).no_duplicates(),
    decreases locals,
{
    if locals == 0 || candidates.len() == 0 {
    } else {
        let rest = candidates.drop_first();
        let head = anchor_pairs(candidates);
        let tail = tile_pairs(rest, (locals - 1) as nat);
        lemma_tile_pairs_no_duplicates(rest, (locals - 1) as nat);
        assert forall|i: int, j: int| 0 <= i < head.len() && 0 <= j < head.len() && i != j implies head[i]
            != head[j] by {
            if head[i] == head[j] {
                lemma_pair_at_unique(candidates, 0, i + 1, 0, j + 1, head[i]);
            }
        }
        assert forall|p: Pair| head.contains(p) implies !tail.contains(p) by {
            lemma_anchor_pairs_members(candidates, p);
            lemma_tile_pairs_members(rest, (locals - 1) as nat, p);
            if tail.contains(p) {
                let b = choose|b: int| pair_at(candidates, 0, b, p);
                let (c, d) = choose|c: int, d: int| c < locals - 1 && pair_at(rest, c, d, p);
                assert(pair_at(candidates, c + 1, d + 1, p));
                lemma_pair_at_unique(candidates, 0, b, c + 1, d + 1, p);
            }
        }
        lemma_concat_no_duplicates(head, tail);
    }
}

/// The pair `p` is resolved at step `k`: its particles are near each other,
/// one of them lies in the cell that is current at step `k`, and neither
/// lies in a cell that has been current before.
pub open spec fn resolved_at(cells: Seq<Cell>, order: Seq<Cell>, k: int, p: Pair) -> bool {
    &&& p.0 < p.1 < cells.len()
    &&& near(cells[p.0 as int], cells[p.1 as int])
    &&& (cells[p.0 as int] == order[k] || cells[p.1 as int] == order[k])
    &&& !visited(order, k).contains(cells[p.0 as int])
    &&& !visited(order, k).contains(cells[p.1 as int])
}

/// The pairs of particles that lie in the same cell or in adjacent cells,
/// the lower index first.
pub open spec fn near_pairs(cells: Seq<Cell>) -> Set<Pair> {
    Set::new(|p: Pair| p.0 < p.1 < cells.len() && near(cells[p.0 as int], cells[p.1 as int]))
}

/// What the candidates of a step are: the particles of the current cell,
/// unless it has been current before, and those of the adjacent cells that
/// have not been current yet.
pub proof fn lemma_step_candidates_members(cells: Seq<Cell>, order: Seq<Cell>, k: int, i: usize)
    requires
        cells.len() <= usize::MAX,
        0 <= k < order.len(),
    ensures
        step_locals(cells, order, k).contains(i) <==> (i < cells.len() && cells[i as int]
            == order[k] && !visited(order, k).contains(order[k])),
        step_candidates(cells, order, k).contains(i) <==> (step_locals(cells, order, k).contains(i)
            || (i < cells.len() && adjacent(order[k], cells[i as int]) && !visited(
            order,
            k + 1,
        ).contains(cells[i as int]))),
{
    let c = order[k];
    let locals = step_locals(cells, order, k);
    let others = gather(cells, visited(order, k + 1), moore(c));
    lemma_bucket_members(cells, c, cells.len(), i);
    lemma_gather_members(cells, visited(order, k + 1), moore(c), i);
    lemma_concat_contains(locals, others, i);
    if i < cells.len() {
        lemma_moore_members(c, cells[i as int]);
    }
}

/// No particle is a candidate twice in one step.
pub proof fn lemma_step_candidates_no_duplicates(cells: Seq<Cell>, order: Seq<Cell>, k: int)
    requires
        cells.len() <= usize::MAX,
        0 <= k < order.len(),
    ensures
        step_candidates(cells, order, k).no_duplicates(),
{
    let c = order[k];
    let locals = step_locals(cells, order, k);
    let others = gather(cells, visited(order, k + 1), moore(c));
    lemma_bucket_ascending(cells, c, cells.len());
    lemma_moore_no_duplicates(c);
    lemma_gather_no_duplicates(cells, visited(order, k + 1), moore(c));
    assert forall|i: usize| locals.contains(i) implies !others.contains(i) by {
        lemma_bucket_members(cells, c, cells.len(), i);
        lemma_gather_members(cells, visited(order, k + 1), moore(c), i);
        lemma_moore_members(c, c);
    }
    lemma_concat_no_duplicates(locals, others);
}

/// The pairs of a step are the pairs that are resolved at that step.
pub proof fn lemma_step_pairs_members(cells: Seq<Cell>, order: Seq<Cell>, k: int, p: Pair)
    requires
        cells.len() <= usize::MAX,
        0 <= k < order.len(),
    ensures
        step_pairs(cells, order, k).contains(p) <==> resolved_at(cells, order, k, p),
{
    let c = order[k];
    let locals = step_locals(cells, order, k);
    let others = gather(cells, visited(order, k + 1), moore(c));
    let candidates = step_candidates(cells, order, k);
    lemma_tile_pairs_members(candidates, locals.len(), p);
    lemma_step_candidates_no_duplicates(cells, order, k);
    lemma_visited_next(order, k);
    if step_pairs(cells, order, k).contains(p) {
        let (a, b) = choose|a: int, b: int| a < locals.len() && pair_at(candidates, a, b, p);
        let i = candidates[a];
        let j = candidates[b];
        assert(candidates.contains(i));
        assert(candidates.contains(j));
        assert(locals[a] == i);
        assert(locals.contains(i));
        lemma_step_candidates_members(cells, order, k, i);
        lemma_step_candidates_members(cells, order, k, j);
        assert(resolved_at(cells, order, k, p));
    }
    if resolved_at(cells, order, k, p) {
        let i = if cells[p.0 as int] == c { p.0 } else { p.1 };
        let j = if cells[p.0 as int] == c { p.1 } else { p.0 };
        lemma_bucket_members(cells, c, cells.len(), i);
        lemma_bucket_members(cells, c, cells.len(), j);
        lemma_gather_members(cells, visited(order, k + 1), moore(c), j);
        lemma_moore_members(c, cells[j as int]);
        assert(locals.contains(i));
        let a = choose|a: int| 0 <= a < locals.len() && locals[a] == i;
        assert(candidates[a] == i);
        if cells[j as int] == c {
            assert(locals.contains(j));
            let b = choose|b: int| 0 <= b < locals.len() && locals[b] == j;
            assert(candidates[b] == j);
            if a < b {
                assert(pair_at(candidates, a, b, p));
            } else {
                assert(pair_at(candidates, b, a, p));
            }
        } else {
            assert(others.contains(j));
            let g = choose|g: int| 0 <= g < others.len() && others[g] == j;
            assert(candidates[locals.len() + g] == j);
            assert(pair_at(candidates, a, locals.len() + g, p));
        }
    }
}

/// The pairs of the first `n` steps are the pairs resolved at one of them.
pub proof fn lemma_pairs_upto_members(cells: Seq<Cell>, order: Seq<Cell>, n: nat, p: Pair)
    requires
        cells.len() <= usize::MAX,
        n <= order.len(),
    ensures
        pairs_upto(cells, order, n).contains(p) <==> exists|k: int|
            0 <= k < n && resolved_at(cells, order, k, p),
    decreases n,
{
    if n > 0 {
        lemma_pairs_upto_members(cells, order, (n - 1) as nat, p);
        lemma_step_pairs_members(cells, order, n - 1, p);
        lemma_concat_contains(
            pairs_upto(cells, order, (n - 1) as nat),
            step_pairs(cells, order, n - 1),
            p,
        );
        if exists|k: int| 0 <= k < n - 1 && resolved_at(cells, order, k, p) {
            let k = choose|k: int| 0 <= k < n - 1 && resolved_at(cells, order, k, p);
            assert(0 <= k < n && resolved_at(cells, order, k, p));
        }
        if resolved_at(cells, order, n - 1, p) {
            assert(0 <= n - 1 < n && resolved_at(cells, order, n - 1, p));
        }
    }
}

/// No pair is resolved at two steps: once one of its cells has been current,
/// the pair is out of reach of every later step.
pub proof fn lemma_resolved_once(cells: Seq<Cell>, order: Seq<Cell>, j: int, k: int, p: Pair)
    requires
        0 <= j < k < order.len(),
        resolved_at(cells, order, j, p),
    ensures
        !resolved_at(cells, order, k, p),
{
    assert(order.take(k)[j] == order[j]);
    assert(order.take(k).contains(order[j]));
}

/// The first `n` steps resolve no pair twice.
pub proof fn lemma_pairs_upto_no_duplicates(cells: Seq<Cell>, order: Seq<Cell>, n: nat)
    requires
        cells.len() <= usize::MAX,
        n <= order.len(),
    ensures
        pairs_upto(cells, order, n).no_duplicates(),
    decreases n,
{
    if n > 0 {
        let before = pairs_upto(cells, order, (n - 1) as nat);
        let step = step_pairs(cells, order, n - 1);
        lemma_pairs_upto_no_duplicates(cells, order, (n - 1) as nat);
        lemma_step_candidates_no_duplicates(cells, order, n - 1);
        lemma_tile_pairs_no_duplicates(
            step_candidates(cells, order, n - 1),
            step_locals(cells, order, n - 1).len(),
        );
        assert forall|p: Pair| before.contains(p) implies !step.contains(p) by {
            lemma_pairs_upto_members(cells, order, (n - 1) as nat, p);
            lemma_step_pairs_members(cells, order, n - 1, p);
            let j = choose|j: int| 0 <= j < n - 1 && resolved_at(cells, order, j, p);
            lemma_resolved_once(cells, order, j, n - 1, p);
        }
        lemma_concat_no_duplicates(before, step);
    }
}

/// Where `order` names `x` or `y` at `k`, there is a first place at which it
/// names one of them.
proof fn lemma_first_of_two(order: Seq<Cell>, x: Cell, y: Cell, k: int) -> (m: int)
    requires
        0 <= k < order.len(),
        order[k] == x || order[k] == y,
    ensures
        0 <= m <= k,
        order[m] == x || order[m] == y,
        !visited(order, m).contains(x),
        !visited(order, m).contains(y),
    decreases k,
{
    if exists|j: int| 0 <= j < k && (order[j] == x || order[j] == y) {
        let j = choose|j: int| 0 <= j < k && (order[j] == x || order[j] == y);
        lemma_first_of_two(order, x, y, j)
    } else {
        if visited(order, k).contains(x) {
            let j = choose|j: int| 0 <= j < order.take(k).len() && order.take(k)[j] == x;
            assert(order[j] == x);
        }
        if visited(order, k).contains(y) {
            let j = choose|j: int| 0 <= j < order.take(k).len() && order.take(k)[j] == y;
            assert(order[j] == y);
        }
        k
    }
}

/// A pass over a grid resolves exactly the pairs that a scan over all pairs
/// of particles finds in the same or in adjacent cells, and each of them
/// once. This holds for every order in which the pass may take the cells,
/// as long as it takes each cell that holds a particle.
pub proof fn lemma_pass_resolves_near_pairs_once(cells: Seq<Cell>, order: Seq<Cell>)
    requires
        cells.len() <= usize::MAX,
        covers(cells, order),
    ensures
        schedule(cells, order).no_duplicates(),
        schedule(cells, order).to_set() == near_pairs(cells),
{
    let pairs = schedule(cells, order);
    lemma_pairs_upto_no_duplicates(cells, order, order.len());
    assert forall|p: Pair| pairs.contains(p) <==> near_pairs(cells).contains(p) by {
        lemma_pairs_upto_members(cells, order, order.len(), p);
        if near_pairs(cells).contains(p) {
            let x = cells[p.0 as int];
            let y = cells[p.1 as int];
            assert(order.contains(x));
            let k = choose|k: int| 0 <= k < order.len() && order[k] == x;
            let m = lemma_first_of_two(order, x, y, k);
            assert(resolved_at(cells, order, m, p));
        }
    }
    assert(pairs.to_set() =~= near_pairs(cells));
}

} // verus!
