//! The spawner's policy: how many particles enter on a frame, and where.

use vstd::prelude::*;

verus! {

/// The most particles that enter on one frame.
pub const BURST: usize = 10;

/// The largest population that the spawner fills the store to.
pub const MAX_BALLS: usize = 2000;

/// The time between two bursts, in milliseconds.
pub const SPAWN_INTERVAL: u64 = 10;

/// The distance between two particles of one burst, along the x axis.
pub const SPAWN_SPACING: i32 = 7;

/// How many particles a burst adds to a population of `count` under the cap
/// `cap`: a full burst, or as many as the cap still admits. Without a timer
/// that has run out there is no burst.
pub open spec fn granted(count: nat, cap: nat, timer_finished: bool) -> nat {
    if !timer_finished || count >= cap {
        0
    } else if cap - count < BURST {
        (cap - count) as nat
    } else {
        BURST as nat
    }
}

/// Counts the particles spawned so far and holds the population under a cap.
pub struct Spawner {
    ball_count: usize,
    cap: usize,
}

impl Spawner {
    /// The particles spawned so far.
    pub closed spec fn spawned(&self) -> nat {
        self.ball_count as nat
    }

    /// The cap on the population.
    pub closed spec fn limit(&self) -> nat {
        self.cap as nat
    }

    /// The population never exceeds the cap.
    #[verifier::type_invariant]
    spec fn within_cap(&self) -> bool {
        self.ball_count <= self.cap
    }

    /// A spawner that has spawned nothing yet.
    pub fn new(cap: usize) -> (spawner: Spawner)
        ensures
            spawner.spawned() == 0,
            spawner.limit() == cap,
    {
        Spawner { ball_count: 0, cap }
    }

    /// The particles spawned so far: never more than the cap.
    pub fn ball_count(&self) -> (n: usize)
        ensures
            n == self.spawned(),
            n <= self.limit(),
    {
        proof {
            use_type_invariant(self);
        }
        self.ball_count
    }

    /// The cap on the population.
    pub fn cap(&self) -> (n: usize)
        ensures
            n == self.limit(),
    {
        self.cap
    }

    /// Decides a frame: returns how many particles to insert now and counts
    /// them. Requests beyond the cap are dropped without an error.
    pub fn spawn(&mut self, timer_finished: bool) -> (n: usize)
        ensures
            n == granted(old(self).spawned(), old(self).limit(), timer_finished),
            final(self).spawned() == old(self).spawned() + n,
            final(self).limit() == old(self).limit(),
    {
        proof {
            use_type_invariant(&*self);
        }
        if !timer_finished || self.ball_count >= self.cap {
            return 0;
        }
        let room = self.cap - self.ball_count;
        let n = if room < BURST {
            room
        } else {
            BURST
        };
        self.ball_count = self.ball_count + n;
        n
    }
}

/// The x coordinate at which the particle `slot` of a burst enters. All
/// particles of a burst enter at height zero.
pub fn spawn_x(slot: usize) -> (x: i32)
    requires
        SPAWN_SPACING * slot <= i32::MAX,
    ensures
        x == SPAWN_SPACING * slot,
{
    SPAWN_SPACING * (slot as i32)
}

/// A burst never grows the population past the cap.
pub proof fn lemma_granted_within_cap(count: nat, cap: nat, timer_finished: bool)
    requires
        count <= cap,
    ensures
        count + granted(count, cap, timer_finished) <= cap,
        granted(count, cap, timer_finished) <= BURST,
{
}

} // verus!
