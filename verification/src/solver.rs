//! The sub-step driver: gravity, boundary, collisions and integration, in
//! that order, over a store of particles.
//!
//! The driver is generic over the particle. What happens to one particle or
//! to one pair of particles is the caller's kernel; which kernel runs on
//! what, and when, is decided here.

use vstd::prelude::*;
use crate::cell::Cell;
use crate::pass::{schedule, Pair};
use crate::resolver::{collision_pairs, is_pass, lemma_walk_covers, walks};
use crate::coverage::{lemma_pass_resolves_near_pairs_once, near_pairs};
use crate::store::ParticleStore;

verus! {

/// The number of sub-steps in one tick.
pub const SUB_STEPS: u8 = 8;

/// `after` holds, for each particle of `before`, what `f` made of it.
pub open spec fn mapped<P, F: Fn(P) -> P>(f: F, before: Seq<P>, after: Seq<P>) -> bool {
    &&& after.len() == before.len()
    &&& forall|i: int| 0 <= i < before.len() ==> call_ensures(f, (before[i],), #[trigger] after[i])
}

/// `cells` holds, for each particle, the cell that `cell_of` gave for it.
pub open spec fn located<P, C: Fn(P) -> Cell>(cell_of: C, particles: Seq<P>, cells: Seq<Cell>) -> bool {
    &&& cells.len() == particles.len()
    &&& forall|i: int|
        0 <= i < particles.len() ==> call_ensures(cell_of, (particles[i],), #[trigger] cells[i])
}

/// `after` is `before` with the two particles of `pair` replaced by what
/// `kernel` made of them.
pub open spec fn collided<P, K: Fn(P, P) -> (P, P)>(
    kernel: K,
    before: Seq<P>,
    pair: Pair,
    after: Seq<P>,
) -> bool {
    &&& pair.0 < pair.1 < before.len()
    &&& exists|out: (P, P)|
        {
            &&& call_ensures(kernel, (before[pair.0 as int], before[pair.1 as int]), out)
            &&& after == before.update(pair.0 as int, out.0).update(pair.1 as int, out.1)
        }
}

/// `after` is `before` with `kernel` run on each pair of `pairs`, one after
/// the other: a later pair sees what the earlier ones left.
pub open spec fn resolved<P, K: Fn(P, P) -> (P, P)>(
    kernel: K,
    before: Seq<P>,
    pairs: Seq<Pair>,
    after: Seq<P>,
) -> bool
    decreases pairs.len(),
{
    if pairs.len() == 0 {
        after == before
    } else {
        exists|mid: Seq<P>|
            {
                &&& resolved(kernel, before, pairs.drop_last(), mid)
                &&& collided(kernel, mid, pairs.last(), after)
            }
    }
}

/// `after` is `before` after one collision pass: the particles are
/// bucketed by the cells that `cell_of` gives for them as they are before
/// the pass, and `kernel` runs on the pairs of a pass over that grid.
pub open spec fn collision_passed<P, C: Fn(P) -> Cell, K: Fn(P, P) -> (P, P)>(
    cell_of: C,
    kernel: K,
    before: Seq<P>,
    after: Seq<P>,
) -> bool {
    exists|cells: Seq<Cell>, pairs: Seq<Pair>|
        {
            &&& located(cell_of, before, cells)
            &&& is_pass(cells, pairs)
            &&& resolved(kernel, before, pairs, after)
        }
}

/// Replaces each particle by what `f` makes of it.
pub fn update_each<P: Copy, F: Fn(P) -> P>(store: &mut ParticleStore<P>, f: &F)
    requires
        forall|p: P| call_requires(*f, (p,)),
    ensures
        mapped(*f, old(store)@, final(store)@),
{
    let n = store.len();
    let mut i: usize = 0;
    while i < n
        invariant
            i <= n,
            n == store@.len(),
            store@.len() == old(store)@.len(),
            forall|p: P| call_requires(*f, (p,)),
            forall|j: int| 0 <= j < i ==> call_ensures(*f, (old(store)@[j],), #[trigger] store@[j]),
            forall|j: int| i <= j < n ==> store@[j] == old(store)@[j],
        decreases n - i,
    {
        let p = *store.get(i);
        *store.get_mut(i) = f(p);
        i = i + 1;
    }
}

/// The cell of each particle, by index.
pub fn locate<P: Copy, C: Fn(P) -> Cell>(store: &ParticleStore<P>, cell_of: &C) -> (cells: Vec<Cell>)
    requires
        forall|p: P| call_requires(*cell_of, (p,)),
    ensures
        located(*cell_of, store@, cells@),
{
    let n = store.len();
    let mut cells: Vec<Cell> = Vec::new();
    let mut i: usize = 0;
    while i < n
        invariant
            i <= n,
            n == store@.len(),
            cells@.len() == i,
            forall|p: P| call_requires(*cell_of, (p,)),
            forall|j: int| 0 <= j < i ==> call_ensures(*cell_of, (store@[j],), #[trigger] cells@[j]),
        decreases n - i,
    {
        cells.push(cell_of(*store.get(i)));
        i = i + 1;
    }
    cells
}

/// Runs `kernel` on each pair of `pairs`, in order, and stores what it
/// returns in place of the two particles.
pub fn resolve_pairs<P: Copy, K: Fn(P, P) -> (P, P)>(
    store: &mut ParticleStore<P>,
    pairs: &Vec<Pair>,
    kernel: &K,
)
    requires
        forall|a: P, b: P| call_requires(*kernel, (a, b)),
        forall|k: int|
            0 <= k < pairs.len() ==> (#[trigger] pairs[k]).0 < pairs[k].1 < old(store)@.len(),
    ensures
        resolved(*kernel, old(store)@, pairs@, final(store)@),
{
    let mut k: usize = 0;
    while k < pairs.len()
        invariant
            k <= pairs.len(),
            store@.len() == old(store)@.len(),
            forall|a: P, b: P| call_requires(*kernel, (a, b)),
            forall|k: int|
                0 <= k < pairs.len() ==> (#[trigger] pairs[k]).0 < pairs[k].1 < old(store)@.len(),
            resolved(*kernel, old(store)@, pairs@.take(k as int), store@),
        decreases pairs.len() - k,
    {
        let (i, j) = pairs[k];
        let ghost mid = store@;
        let (first, second) = store.pair_mut(i, j);
        let out = kernel(*first, *second);
        *first = out.0;
        *second = out.1;
        proof {
            assert(pairs@.take(k + 1).drop_last() == pairs@.take(k as int));
            assert(collided(*kernel, mid, pairs@.take(k + 1).last(), store@));
        }
        k = k + 1;
    }
    proof {
        assert(pairs@.take(pairs.len() as int) == pairs@);
    }
}

/// One collision pass: builds the grid from the cells of the particles and
/// runs `kernel` on every pair of particles in the same or in adjacent
/// cells, once.
pub fn resolve_collisions<P: Copy, C: Fn(P) -> Cell, K: Fn(P, P) -> (P, P)>(
    store: &mut ParticleStore<P>,
    cell_of: &C,
    kernel: &K,
)
    requires
        forall|p: P| call_requires(*cell_of, (p,)),
        forall|a: P, b: P| call_requires(*kernel, (a, b)),
    ensures
        collision_passed(*cell_of, *kernel, old(store)@, final(store)@),
{
    let cells = locate(store, cell_of);
    let pairs = collision_pairs(&cells);
    proof {
        assert forall|k: int| 0 <= k < pairs.len() implies (#[trigger] pairs[k]).0 < pairs[k].1
            < store@.len() by {
            assert(pairs@.contains(pairs[k]));
            assert(pairs@.to_set().contains(pairs[k]));
            assert(near_pairs(cells@).contains(pairs[k]));
        }
    }
    resolve_pairs(store, &pairs, kernel);
}

/// `after` is `before` after one sub-step: gravity is added to every
/// particle, every particle is held inside the boundary, one collision pass
/// runs, and every particle is integrated.
pub open spec fn sub_stepped<
    P,
    A: Fn(P) -> P,
    B: Fn(P) -> P,
    C: Fn(P) -> Cell,
    K: Fn(P, P) -> (P, P),
    I: Fn(P) -> P,
>(accelerate: A, constrain: B, cell_of: C, kernel: K, integrate: I, before: Seq<P>, after: Seq<P>) -> bool {
    exists|pulled: Seq<P>, held: Seq<P>, apart: Seq<P>|
        {
            &&& mapped(accelerate, before, pulled)
            &&& mapped(constrain, pulled, held)
            &&& collision_passed(cell_of, kernel, held, apart)
            &&& mapped(integrate, apart, after)
        }
}

/// `after` is `before` after `n` sub-steps.
pub open spec fn ticked<
    P,
    A: Fn(P) -> P,
    B: Fn(P) -> P,
    C: Fn(P) -> Cell,
    K: Fn(P, P) -> (P, P),
    I: Fn(P) -> P,
>(
    accelerate: A,
    constrain: B,
    cell_of: C,
    kernel: K,
    integrate: I,
    n: nat,
    before: Seq<P>,
    after: Seq<P>,
) -> bool
    decreases n,
{
    if n == 0 {
        after == before
    } else {
        exists|mid: Seq<P>|
            {
                &&& ticked(accelerate, constrain, cell_of, kernel, integrate, (n - 1) as nat, before, mid)
                &&& sub_stepped(accelerate, constrain, cell_of, kernel, integrate, mid, after)
            }
    }
}

/// One sub-step over all particles, in this order: `accelerate` adds
/// gravity, `constrain` holds the particle inside the boundary, the
/// collision pass runs `kernel` on the pairs of the grid that `cell_of`
/// gives, and `integrate` moves the particle and clears its acceleration.
pub fn sub_step<
    P: Copy,
    A: Fn(P) -> P,
    B: Fn(P) -> P,
    C: Fn(P) -> Cell,
    K: Fn(P, P) -> (P, P),
    I: Fn(P) -> P,
>(store: &mut ParticleStore<P>, accelerate: &A, constrain: &B, cell_of: &C, kernel: &K, integrate: &I)
    requires
        forall|p: P| call_requires(*accelerate, (p,)),
        forall|p: P| call_requires(*constrain, (p,)),
        forall|p: P| call_requires(*cell_of, (p,)),
        forall|a: P, b: P| call_requires(*kernel, (a, b)),
        forall|p: P| call_requires(*integrate, (p,)),
    ensures
        sub_stepped(
            *accelerate,
            *constrain,
            *cell_of,
            *kernel,
            *integrate,
            old(store)@,
            final(store)@,
        ),
{
    update_each(store, accelerate);
    let ghost pulled = store@;
    update_each(store, constrain);
    let ghost held = store@;
    resolve_collisions(store, cell_of, kernel);
    let ghost apart = store@;
    update_each(store, integrate);
    proof {
        assert(mapped(*accelerate, old(store)@, pulled) && mapped(*constrain, pulled, held)
            && collision_passed(*cell_of, *kernel, held, apart) && mapped(*integrate, apart, store@));
    }
}

/// One tick: `sub_steps` sub-steps, one after the other.
pub fn tick<
    P: Copy,
    A: Fn(P) -> P,
    B: Fn(P) -> P,
    C: Fn(P) -> Cell,
    K: Fn(P, P) -> (P, P),
    I: Fn(P) -> P,
>(
    store: &mut ParticleStore<P>,
    sub_steps: u8,
    accelerate: &A,
    constrain: &B,
    cell_of: &C,
    kernel: &K,
    integrate: &I,
)
    requires
        forall|p: P| call_requires(*accelerate, (p,)),
        forall|p: P| call_requires(*constrain, (p,)),
        forall|p: P| call_requires(*cell_of, (p,)),
        forall|a: P, b: P| call_requires(*kernel, (a, b)),
        forall|p: P| call_requires(*integrate, (p,)),
    ensures
        ticked(
            *accelerate,
            *constrain,
            *cell_of,
            *kernel,
            *integrate,
            sub_steps as nat,
            old(store)@,
            final(store)@,
        ),
{
    let mut done: u8 = 0;
    while done < sub_steps
        invariant
            done <= sub_steps,
            forall|p: P| call_requires(*accelerate, (p,)),
            forall|p: P| call_requires(*constrain, (p,)),
            forall|p: P| call_requires(*cell_of, (p,)),
            forall|a: P, b: P| call_requires(*kernel, (a, b)),
            forall|p: P| call_requires(*integrate, (p,)),
            ticked(
                *accelerate,
                *constrain,
                *cell_of,
                *kernel,
                *integrate,
                done as nat,
                old(store)@,
                store@,
            ),
        decreases sub_steps - done,
    {
        sub_step(store, accelerate, constrain, cell_of, kernel, integrate);
        done = done + 1;
    }
}

/// A pass keeps every particle at its index: the store is as long after it
/// as before.
pub proof fn lemma_resolved_keeps_len<P, K: Fn(P, P) -> (P, P)>(
    kernel: K,
    before: Seq<P>,
    pairs: Seq<Pair>,
    after: Seq<P>,
)
    requires
        resolved(kernel, before, pairs, after),
    ensures
        after.len() == before.len(),
    decreases pairs.len(),
{
    if pairs.len() > 0 {
        let mid = choose|mid: Seq<P>|
            {
                &&& resolved(kernel, before, pairs.drop_last(), mid)
                &&& collided(kernel, mid, pairs.last(), after)
            };
        lemma_resolved_keeps_len(kernel, before, pairs.drop_last(), mid);
    }
}

/// A sub-step keeps every particle at its index: none enters, none leaves.
pub proof fn lemma_sub_step_keeps_len<
    P,
    A: Fn(P) -> P,
    B: Fn(P) -> P,
    C: Fn(P) -> Cell,
    K: Fn(P, P) -> (P, P),
    I: Fn(P) -> P,
>(accelerate: A, constrain: B, cell_of: C, kernel: K, integrate: I, before: Seq<P>, after: Seq<P>)
    requires
        sub_stepped(accelerate, constrain, cell_of, kernel, integrate, before, after),
    ensures
        after.len() == before.len(),
{
    let (pulled, held, apart) = choose|pulled: Seq<P>, held: Seq<P>, apart: Seq<P>|
        {
            &&& mapped(accelerate, before, pulled)
            &&& mapped(constrain, pulled, held)
            &&& collision_passed(cell_of, kernel, held, apart)
            &&& mapped(integrate, apart, after)
        };
    let (cells, pairs) = choose|cells: Seq<Cell>, pairs: Seq<Pair>|
        {
            &&& located(cell_of, held, cells)
            &&& is_pass(cells, pairs)
            &&& resolved(kernel, held, pairs, apart)
        };
    lemma_resolved_keeps_len(kernel, held, pairs, apart);
}

/// A tick keeps every particle at its index.
pub proof fn lemma_tick_keeps_len<
    P,
    A: Fn(P) -> P,
    B: Fn(P) -> P,
    C: Fn(P) -> Cell,
    K: Fn(P, P) -> (P, P),
    I: Fn(P) -> P,
>(
    accelerate: A,
    constrain: B,
    cell_of: C,
    kernel: K,
    integrate: I,
    n: nat,
    before: Seq<P>,
    after: Seq<P>,
)
    requires
        ticked(accelerate, constrain, cell_of, kernel, integrate, n, before, after),
    ensures
        after.len() == before.len(),
    decreases n,
{
    if n > 0 {
        let mid = choose|mid: Seq<P>|
            {
                &&& ticked(accelerate, constrain, cell_of, kernel, integrate, (n - 1) as nat, before, mid)
                &&& sub_stepped(accelerate, constrain, cell_of, kernel, integrate, mid, after)
            };
        lemma_tick_keeps_len(accelerate, constrain, cell_of, kernel, integrate, (n - 1) as nat, before, mid);
        lemma_sub_step_keeps_len(accelerate, constrain, cell_of, kernel, integrate, mid, after);
    }
}

/// A pass over particles that the kernel leaves as they are changes
/// nothing. The kernel leaves two particles as they are when they do not
/// overlap; so where no two particles of `before` that the pass pairs
/// overlap, the pass leaves every particle where it was.
pub proof fn lemma_idle_pass_changes_nothing<P, K: Fn(P, P) -> (P, P)>(
    kernel: K,
    before: Seq<P>,
    pairs: Seq<Pair>,
    after: Seq<P>,
)
    requires
        resolved(kernel, before, pairs, after),
        forall|k: int, out: (P, P)|
            0 <= k < pairs.len() && #[trigger] call_ensures(
                kernel,
                (before[pairs[k].0 as int], before[pairs[k].1 as int]),
                out,
            ) ==> out == (before[pairs[k].0 as int], before[pairs[k].1 as int]),
    ensures
        after == before,
    decreases pairs.len(),
{
    if pairs.len() > 0 {
        let front = pairs.drop_last();
        let pair = pairs.last();
        assert(exists|mid: Seq<P>|
            {
                &&& resolved(kernel, before, front, mid)
                &&& collided(kernel, mid, pair, after)
            });
        let mid = choose|mid: Seq<P>|
            {
                &&& resolved(kernel, before, front, mid)
                &&& collided(kernel, mid, pair, after)
            };
        assert forall|k: int, out: (P, P)|
            0 <= k < front.len() && #[trigger] call_ensures(
                kernel,
                (before[front[k].0 as int], before[front[k].1 as int]),
                out,
            ) implies out == (before[front[k].0 as int], before[front[k].1 as int]) by {
            assert(front[k] == pairs[k]);
        }
        lemma_idle_pass_changes_nothing(kernel, before, front, mid);
        let out = choose|out: (P, P)|
            {
                &&& call_ensures(kernel, (mid[pair.0 as int], mid[pair.1 as int]), out)
                &&& after == mid.update(pair.0 as int, out.0).update(pair.1 as int, out.1)
            };
        assert(pair == pairs[pairs.len() - 1]);
        assert(out == (before[pair.0 as int], before[pair.1 as int]));
        assert(after =~= before);
    }
}

/// A collision pass over particles of which no two overlap changes nothing.
/// The kernel moves two particles only where they overlap, so "no two
/// overlap" is: the kernel hands every two particles of `before` back as
/// they are.
pub proof fn lemma_pass_without_overlap_changes_nothing<
    P,
    C: Fn(P) -> Cell,
    K: Fn(P, P) -> (P, P),
>(cell_of: C, kernel: K, before: Seq<P>, after: Seq<P>)
    requires
        before.len() <= usize::MAX,
        collision_passed(cell_of, kernel, before, after),
        forall|i: int, j: int, out: (P, P)|
            0 <= i < j < before.len() && #[trigger] call_ensures(kernel, (before[i], before[j]), out)
                ==> out == (before[i], before[j]),
    ensures
        after == before,
{
    let (cells, pairs) = choose|cells: Seq<Cell>, pairs: Seq<Pair>|
        {
            &&& located(cell_of, before, cells)
            &&& is_pass(cells, pairs)
            &&& resolved(kernel, before, pairs, after)
        };
    let order = choose|order: Seq<Cell>| walks(cells, order) && pairs == schedule(cells, order);
    lemma_walk_covers(cells, order);
    lemma_pass_resolves_near_pairs_once(cells, order);
    assert forall|k: int, out: (P, P)|
        0 <= k < pairs.len() && #[trigger] call_ensures(
            kernel,
            (before[pairs[k].0 as int], before[pairs[k].1 as int]),
            out,
        ) implies out == (before[pairs[k].0 as int], before[pairs[k].1 as int]) by {
        assert(pairs.contains(pairs[k]));
        assert(pairs.to_set().contains(pairs[k]));
        assert(near_pairs(cells).contains(pairs[k]));
    }
    lemma_idle_pass_changes_nothing(kernel, before, pairs, after);
}

/// A particle that is alone meets no kernel in a collision pass: the pass
/// leaves a store of one particle, or of none, as it is.
pub proof fn lemma_lone_particle_passes_untouched<P, C: Fn(P) -> Cell, K: Fn(P, P) -> (P, P)>(
    cell_of: C,
    kernel: K,
    before: Seq<P>,
    after: Seq<P>,
)
    requires
        before.len() <= 1,
        collision_passed(cell_of, kernel, before, after),
    ensures
        after == before,
{
    let (cells, pairs) = choose|cells: Seq<Cell>, pairs: Seq<Pair>|
        {
            &&& located(cell_of, before, cells)
            &&& is_pass(cells, pairs)
            &&& resolved(kernel, before, pairs, after)
        };
    let order = choose|order: Seq<Cell>| walks(cells, order) && pairs == schedule(cells, order);
    lemma_walk_covers(cells, order);
    lemma_pass_resolves_near_pairs_once(cells, order);
    if pairs.len() > 0 {
        assert(pairs.contains(pairs[0]));
        assert(pairs.to_set().contains(pairs[0]));
        assert(near_pairs(cells).contains(pairs[0]));
    }
}

/// The store after running the function `f` on each pair of `pairs`, one
/// after the other.
pub open spec fn resolved_by<P>(f: spec_fn(P, P) -> (P, P), before: Seq<P>, pairs: Seq<Pair>) -> Seq<P>
    decreases pairs.len(),
{
    if pairs.len() == 0 {
        before
    } else {
        let mid = resolved_by(f, before, pairs.drop_last());
        let pair = pairs.last();
        let out = f(mid[pair.0 as int], mid[pair.1 as int]);
        mid.update(pair.0 as int, out.0).update(pair.1 as int, out.1)
    }
}

/// Where the kernel is a function, so is the pass: the store after it is
/// fixed by the store before it and by the pairs.
pub proof fn lemma_resolved_is_a_function<P, K: Fn(P, P) -> (P, P)>(
    kernel: K,
    f: spec_fn(P, P) -> (P, P),
    before: Seq<P>,
    pairs: Seq<Pair>,
    after: Seq<P>,
)
    requires
        resolved(kernel, before, pairs, after),
        forall|a: P, b: P, out: (P, P)| #[trigger] call_ensures(kernel, (a, b), out) ==> out == f(a, b),
    ensures
        after == resolved_by(f, before, pairs),
    decreases pairs.len(),
{
    if pairs.len() > 0 {
        let pair = pairs.last();
        let mid = choose|mid: Seq<P>|
            {
                &&& resolved(kernel, before, pairs.drop_last(), mid)
                &&& collided(kernel, mid, pair, after)
            };
        lemma_resolved_is_a_function(kernel, f, before, pairs.drop_last(), mid);
    }
}

/// Where the kernel is a function, `after` is that function applied to each
/// particle of `before`.
pub proof fn lemma_mapped_is_a_function<P, F: Fn(P) -> P>(
    kernel: F,
    f: spec_fn(P) -> P,
    before: Seq<P>,
    after: Seq<P>,
)
    requires
        mapped(kernel, before, after),
        forall|p: P, out: P| #[trigger] call_ensures(kernel, (p,), out) ==> out == f(p),
    ensures
        after == before.map_values(f),
{
    assert(after =~= before.map_values(f));
}

} // verus!
