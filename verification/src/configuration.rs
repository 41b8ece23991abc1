//! The spin state of a lattice, together with its neighbour table.

use crate::lattice::is_neighbour_table;
use crate::lattice::make_neighbour_list;
use crate::lattice::valid_shape;
use crate::rng::Rng;
use vstd::prelude::*;

verus! {

/// A value that a spin can take.
pub open spec fn is_spin(s: i32) -> bool {
    s == 1 || s == -1
}

/// Every entry of `s` is a spin.
pub open spec fn all_spins(s: Seq<i32>) -> bool {
    forall|i: int| 0 <= i < s.len() ==> is_spin(#[trigger] s[i])
}

/// `s` with the sign of entry `idx` changed.
pub open spec fn flipped(s: Seq<i32>, idx: int) -> Seq<i32> {
    s.update(idx, (-s[idx]) as i32)
}

/// A spin configuration on an `lx` by `ly` periodic lattice.
pub struct Configuration {
    /// Number of columns.
    pub lx: usize,
    /// Number of rows.
    pub ly: usize,
    /// The spin of each site, `1` for up and `-1` for down, row by row.
    pub cfg: Vec<i32>,
    /// The four neighbours of site `i` at `4 * i .. 4 * i + 4`, in the order
    /// east, west, north, south.
    pub neighbours: Vec<usize>,
}

impl Configuration {
    /// Number of sites.
    pub open spec fn sites(&self) -> int {
        self.lx * self.ly
    }

    /// The configuration is of an accepted shape, holds one spin per site and
    /// the neighbour table of its lattice.
    pub open spec fn wf(&self) -> bool {
        &&& valid_shape(self.lx as int, self.ly as int)
        &&& self.cfg@.len() == self.sites()
        &&& all_spins(self.cfg@)
        &&& is_neighbour_table(self.neighbours@, self.lx as int, self.ly as int)
    }

    /// Same lattice as `other`: only the spins may differ.
    pub open spec fn same_lattice(&self, other: &Configuration) -> bool {
        &&& self.lx == other.lx
        &&& self.ly == other.ly
        &&& self.neighbours@ == other.neighbours@
    }

    /// A configuration whose spins are drawn one by one from `rng`.
    pub fn random(rng: &mut Rng, lx: usize, ly: usize) -> (cfg: Configuration)
        requires
            valid_shape(lx as int, ly as int),
        ensures
            cfg.wf(),
            cfg.lx == lx,
            cfg.ly == ly,
    {
        let neighbours = make_neighbour_list(lx, ly);
        let sites: usize = neighbours.len() / 4;
        let mut spins: Vec<i32> = Vec::new();
        for site in 0..sites
            invariant
                spins@.len() == site,
                all_spins(spins@),
        {
            let spin: i32 = rng.gen_spin();
            spins.push(spin);
        }
        Configuration { lx, ly, cfg: spins, neighbours }
    }

    /// The configuration with the given spins, if there is one spin per site
    /// and each is `1` or `-1`.
    pub fn from_spins(lx: usize, ly: usize, spins: Vec<i32>) -> (made: Option<Configuration>)
        requires
            valid_shape(lx as int, ly as int),
        ensures
            made.is_some() <==> (spins@.len() == lx * ly && all_spins(spins@)),
            made.is_some() ==> {
                let cfg = made.unwrap();
                cfg.wf() && cfg.lx == lx && cfg.ly == ly && cfg.cfg@ == spins@
            },
    {
        let neighbours = make_neighbour_list(lx, ly);
        if spins.len() != neighbours.len() / 4 {
            return None;
        }
        for site in 0..spins.len()
            invariant
                forall|i: int| 0 <= i < site ==> is_spin(#[trigger] spins@[i]),
        {
            if spins[site] != 1 && spins[site] != -1 {
                return None;
            }
        }
        Some(Configuration { lx, ly, cfg: spins, neighbours })
    }

    /// Number of sites.
    pub fn len(&self) -> (n: usize)
        requires
            self.wf(),
        ensures
            n == self.sites(),
            1 <= n,
    {
        proof {
            let lx = self.lx as int;
            let ly = self.ly as int;
            assert(1 <= lx * ly) by (nonlinear_arith)
                requires
                    1 <= lx,
                    1 <= ly,
            ;
        }
        self.cfg.len()
    }

    /// The spin at site `idx`.
    pub fn index(&self, idx: usize) -> (spin: &i32)
        requires
            idx < self.cfg@.len(),
        ensures
            *spin == self.cfg@[idx as int],
    {
        &self.cfg[idx]
    }

    /// The spin at site `idx`, to be written.
    pub fn index_mut(&mut self, idx: usize) -> (spin: &mut i32)
        requires
            idx < old(self).cfg@.len(),
        ensures
            *spin == old(self).cfg@[idx as int],
            final(self).cfg@ == old(self).cfg@.update(idx as int, *final(spin)),
            final(self).same_lattice(old(self)),
    {
        &mut self.cfg[idx]
    }

    /// Changes the sign of the spin at site `idx`.
    pub fn flip(&mut self, idx: usize)
        requires
            old(self).wf(),
            idx < old(self).sites(),
        ensures
            final(self).wf(),
            final(self).same_lattice(old(self)),
            final(self).cfg@ == flipped(old(self).cfg@, idx as int),
    {
        let spin: i32 = self.cfg[idx];
        self.cfg[idx] = -spin;
    }
}

} // verus!
