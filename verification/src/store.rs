//! The particle store: particles in insertion order, known by their index.

use vstd::prelude::*;

verus! {

/// An append-only sequence of particles. A particle keeps the index that it
/// was given when it was inserted.
pub struct ParticleStore<P> {
    particles: Vec<P>,
}

impl<P> ParticleStore<P> {
    /// The particles, by index.
    pub closed spec fn view(&self) -> Seq<P> {
        self.particles@
    }

    /// A store without particles.
    pub fn new() -> (store: Self)
        ensures
            store@ == Seq::<P>::empty(),
    {
        ParticleStore { particles: Vec::new() }
    }

    /// The number of particles.
    pub fn len(&self) -> (n: usize)
        ensures
            n == self@.len(),
    {
        self.particles.len()
    }

    /// Appends a particle and returns its index.
    pub fn insert(&mut self, particle: P) -> (index: usize)
        ensures
            final(self)@ == old(self)@.push(particle),
            index == old(self)@.len(),
    {
        let index = self.particles.len();
        self.particles.push(particle);
        index
    }

    /// The particle at `index`.
    pub fn get(&self, index: usize) -> (particle: &P)
        requires
            index < self@.len(),
        ensures
            *particle == self@[index as int],
    {
        &self.particles[index]
    }

    /// All particles, in the order of their indices.
    pub fn as_slice(&self) -> (particles: &[P])
        ensures
            particles@ == self@,
    {
        self.particles.as_slice()
    }

    /// The particle at `index`, to be changed in place.
    pub fn get_mut(&mut self, index: usize) -> (particle: &mut P)
        requires
            index < old(self)@.len(),
        ensures
            *particle == old(self)@[index as int],
            final(self)@ == old(self)@.update(index as int, *final(particle)),
    {
        &mut self.particles[index]
    }

    /// Two different particles at once, to be changed in place.
    pub fn pair_mut(&mut self, lower: usize, upper: usize) -> (pair: (&mut P, &mut P))
        requires
            lower < upper < old(self)@.len(),
        ensures
            *pair.0 == old(self)@[lower as int],
            *pair.1 == old(self)@[upper as int],
            final(self)@ == old(self)@.update(lower as int, *final(pair.0)).update(
                upper as int,
                *final(pair.1),
            ),
    {
        let (left, right) = self.particles.as_mut_slice().split_at_mut(upper);
        (&mut left[lower], &mut right[0])
    }
}

} // verus!
