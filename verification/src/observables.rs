//! The history of the observables over a run, one sample per sweep.

use vstd::prelude::*;

verus! {

/// Two series of equal length, in the order in which they were recorded.
pub struct Observables {
    /// The running energy after each sweep.
    pub energy: Vec<i64>,
    /// The total magnetisation after each sweep.
    pub magnetisation: Vec<i32>,
}

impl Observables {
    /// Both series hold one entry per sample.
    pub open spec fn wf(&self) -> bool {
        self.energy@.len() == self.magnetisation@.len()
    }

    /// Number of samples.
    pub open spec fn samples(&self) -> nat {
        self.energy@.len()
    }

    /// `self` is `earlier` followed by `count` further samples.
    pub open spec fn extends(&self, earlier: &Observables, count: int) -> bool {
        &&& self.energy@.len() == earlier.energy@.len() + count
        &&& self.magnetisation@.len() == earlier.magnetisation@.len() + count
        &&& self.energy@.subrange(0, earlier.energy@.len() as int) =~= earlier.energy@
        &&& self.magnetisation@.subrange(0, earlier.magnetisation@.len() as int)
            =~= earlier.magnetisation@
    }

    /// From sample `from` on, every magnetisation is that of a lattice of
    /// `sites` sites and every energy lies between `low` and `high`.
    pub open spec fn bounded_from(&self, from: int, sites: int, low: int, high: int) -> bool {
        &&& forall|j: int|
            from <= j < self.magnetisation@.len() ==> -sites <= #[trigger] self.magnetisation@[j]
                <= sites
        &&& forall|j: int| from <= j < self.energy@.len() ==> low <= #[trigger] self.energy@[j] <= high
    }

    /// From sample `from` on, every sample is the energy `energy` and the
    /// magnetisation `magnetisation`.
    pub open spec fn constant_from(&self, from: int, energy: int, magnetisation: int) -> bool {
        &&& forall|j: int| from <= j < self.energy@.len() ==> #[trigger] self.energy@[j] == energy
        &&& forall|j: int|
            from <= j < self.magnetisation@.len() ==> #[trigger] self.magnetisation@[j]
                == magnetisation
    }

    /// A history without samples.
    pub fn new() -> (obs: Observables)
        ensures
            obs.energy@ == Seq::<i64>::empty(),
            obs.magnetisation@ == Seq::<i32>::empty(),
            obs.wf(),
    {
        Observables { energy: Vec::new(), magnetisation: Vec::new() }
    }

    /// Appends one sample.
    pub fn record(&mut self, energy: i64, magnetisation: i32)
        ensures
            final(self).energy@ == old(self).energy@.push(energy),
            final(self).magnetisation@ == old(self).magnetisation@.push(magnetisation),
    {
        self.energy.push(energy);
        self.magnetisation.push(magnetisation);
    }

    /// Number of samples.
    pub fn len(&self) -> (n: usize)
        ensures
            n == self.energy@.len(),
    {
        self.energy.len()
    }
}

} // verus!
