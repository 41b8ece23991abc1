//! Energy and magnetisation of a configuration, and the change of energy
//! that the Metropolis rule weighs.

use crate::configuration::all_spins;
use crate::configuration::flipped;
use crate::configuration::Configuration;
use crate::lattice::east;
use crate::lattice::lemma_neighbour_in_range;
use crate::lattice::lemma_neighbour_symmetric;
use crate::lattice::lemma_columns_apart;
use crate::lattice::lemma_rows_apart;
use crate::lattice::lemma_single_column;
use crate::lattice::lemma_single_row;
use crate::lattice::neighbour;
use crate::lattice::north;
use crate::lattice::opposite;
use crate::lattice::south;
use crate::lattice::west;
use crate::sums::lemma_sum_add;
use crate::sums::lemma_sum_permuted;
use crate::sums::lemma_sum_three;
use crate::sums::sum;
use vstd::prelude::*;

verus! {

/// Sum of the spins of the four neighbours of site `i`.
pub open spec fn neighbour_sum(s: Seq<i32>, lx: int, ly: int, i: int) -> int {
    s[east(lx, ly, i)] + s[west(lx, ly, i)] + s[north(lx, ly, i)] + s[south(lx, ly, i)]
}

/// What site `i` adds to the bond sum: its spin times its neighbours' spins.
pub open spec fn site_bonds(s: Seq<i32>, lx: int, ly: int) -> spec_fn(int) -> int {
    |i: int| s[i] * neighbour_sum(s, lx, ly, i)
}

/// The spin of site `i`.
pub open spec fn spin_at(s: Seq<i32>) -> spec_fn(int) -> int {
    |i: int| s[i] as int
}

/// Total energy: minus the sum over the sites of the spin times the
/// neighbours' spins. Every bond is counted from both of its ends.
pub open spec fn energy(s: Seq<i32>, lx: int, ly: int) -> int {
    -sum(site_bonds(s, lx, ly), (lx * ly) as nat)
}

/// Sum of all spins.
pub open spec fn total_spin(s: Seq<i32>) -> int {
    sum(spin_at(s), s.len())
}

/// The energy that the Metropolis rule attributes to a flip of site `idx`.
pub open spec fn flip_cost(s: Seq<i32>, lx: int, ly: int, idx: int) -> int {
    2 * s[idx] * neighbour_sum(s, lx, ly, idx)
}

/// The neighbours of a site are sites, and their spins add up to an even
/// number between -4 and 4.
pub proof fn lemma_neighbour_sum_range(s: Seq<i32>, lx: int, ly: int, i: int)
    requires
        1 <= lx,
        1 <= ly,
        s.len() == lx * ly,
        all_spins(s),
        0 <= i < lx * ly,
    ensures
        0 <= east(lx, ly, i) < lx * ly,
        0 <= west(lx, ly, i) < lx * ly,
        0 <= north(lx, ly, i) < lx * ly,
        0 <= south(lx, ly, i) < lx * ly,
        -4 <= neighbour_sum(s, lx, ly, i) <= 4,
        neighbour_sum(s, lx, ly, i) % 2 == 0,
        -4 <= site_bonds(s, lx, ly)(i) <= 4,
        flip_cost(s, lx, ly, i) == -8 || flip_cost(s, lx, ly, i) == -4 || flip_cost(s, lx, ly, i)
            == 0 || flip_cost(s, lx, ly, i) == 4 || flip_cost(s, lx, ly, i) == 8,
{
    lemma_neighbour_in_range(lx, ly, i, 0);
    lemma_neighbour_in_range(lx, ly, i, 1);
    lemma_neighbour_in_range(lx, ly, i, 2);
    lemma_neighbour_in_range(lx, ly, i, 3);
    let e = s[east(lx, ly, i)];
    let w = s[west(lx, ly, i)];
    let n = s[north(lx, ly, i)];
    let so = s[south(lx, ly, i)];
    let c = s[i];
    assert(e == 1 || e == -1);
    assert(w == 1 || w == -1);
    assert(n == 1 || n == -1);
    assert(so == 1 || so == -1);
    assert(c == 1 || c == -1);
}

/// The sum of the spins lies between minus the number of sites and the
/// number of sites, so the mean magnetisation lies between -1 and 1.
pub proof fn lemma_total_spin_range(s: Seq<i32>)
    requires
        all_spins(s),
    ensures
        -s.len() <= total_spin(s) <= s.len(),
{
    assert forall|i: int| 0 <= i < s.len() implies -1 <= #[trigger] spin_at(s)(i) <= 1 by {
        assert(s[i] == 1 || s[i] == -1);
    }
    crate::sums::lemma_sum_bounded(spin_at(s), s.len(), 1);
}

/// The bond of site `i` with its neighbour in direction `d`.
pub open spec fn bond(s: Seq<i32>, lx: int, ly: int, d: int) -> spec_fn(int) -> int {
    |i: int| s[i] * s[neighbour(lx, ly, i, d)]
}

/// The bonds of site `i` with its neighbours to the east and to the north.
/// Over all sites these are all bonds of the lattice, each one once.
pub open spec fn site_bonds_once(s: Seq<i32>, lx: int, ly: int) -> spec_fn(int) -> int {
    |i: int| s[i] * (s[east(lx, ly, i)] + s[north(lx, ly, i)])
}

/// The energy with every bond counted once.
pub open spec fn bond_energy(s: Seq<i32>, lx: int, ly: int) -> int {
    -sum(site_bonds_once(s, lx, ly), (lx * ly) as nat)
}

/// Products distribute over sums and commute.
proof fn lemma_product(a: int, b: int, c: int, d: int, e: int)
    ensures
        a * (b + c + d + e) == a * b + a * c + a * d + a * e,
        a * (b + c) == a * b + a * c,
        a * b == b * a,
{
    assert(a * (b + c + d + e) == a * b + a * c + a * d + a * e) by (nonlinear_arith);
    assert(a * (b + c) == a * b + a * c) by (nonlinear_arith);
    assert(a * b == b * a) by (nonlinear_arith);
}

/// The bonds towards `d` and the bonds towards the opposite direction are
/// the same bonds, so they sum to the same.
proof fn lemma_opposite_bonds(s: Seq<i32>, lx: int, ly: int, d: int)
    requires
        1 <= lx,
        1 <= ly,
        0 <= d < 4,
    ensures
        sum(bond(s, lx, ly, opposite(d)), (lx * ly) as nat) == sum(
            bond(s, lx, ly, d),
            (lx * ly) as nat,
        ),
{
    let n = (lx * ly) as nat;
    let p = |i: int| neighbour(lx, ly, i, d);
    let q = |i: int| neighbour(lx, ly, i, opposite(d));
    let f = bond(s, lx, ly, opposite(d));
    let g = bond(s, lx, ly, d);
    assert forall|i: int| 0 <= i < n implies 0 <= #[trigger] p(i) < n && q(p(i)) == i by {
        lemma_neighbour_in_range(lx, ly, i, d);
        lemma_neighbour_symmetric(lx, ly, i, d);
    }
    assert forall|j: int| 0 <= j < n implies 0 <= #[trigger] q(j) < n && p(q(j)) == j by {
        lemma_neighbour_in_range(lx, ly, j, opposite(d));
        lemma_neighbour_symmetric(lx, ly, j, opposite(d));
    }
    assert forall|i: int| 0 <= i < n implies #[trigger] g(i) == f(p(i)) by {
        assert(q(p(i)) == i);
        lemma_product(s[i] as int, s[p(i)] as int, 0, 0, 0);
    }
    lemma_sum_permuted(f, g, p, q, n);
}

/// The energy is twice the energy with every bond counted once.
pub proof fn lemma_energy_counts_bonds_twice(s: Seq<i32>, lx: int, ly: int)
    requires
        1 <= lx,
        1 <= ly,
    ensures
        energy(s, lx, ly) == 2 * bond_energy(s, lx, ly),
{
    let n = (lx * ly) as nat;
    let be = bond(s, lx, ly, 0);
    let bw = bond(s, lx, ly, 1);
    let bn = bond(s, lx, ly, 2);
    let bs = bond(s, lx, ly, 3);
    let ew = |i: int| be(i) + bw(i);
    let ns = |i: int| bn(i) + bs(i);
    let all = site_bonds(s, lx, ly);
    let once = site_bonds_once(s, lx, ly);
    lemma_opposite_bonds(s, lx, ly, 0);
    lemma_opposite_bonds(s, lx, ly, 2);
    assert forall|i: int| 0 <= i < n implies #[trigger] all(i) == ew(i) + ns(i) by {
        lemma_product(
            s[i] as int,
            s[east(lx, ly, i)] as int,
            s[west(lx, ly, i)] as int,
            s[north(lx, ly, i)] as int,
            s[south(lx, ly, i)] as int,
        );
    }
    assert forall|i: int| 0 <= i < n implies #[trigger] once(i) == be(i) + bn(i) by {
        lemma_product(s[i] as int, s[east(lx, ly, i)] as int, s[north(lx, ly, i)] as int, 0, 0);
    }
    lemma_sum_add(be, bw, ew, n);
    lemma_sum_add(bn, bs, ns, n);
    lemma_sum_add(ew, ns, all, n);
    lemma_sum_add(be, bn, once, n);
}

/// Multiplying by a spin keeps or changes the sign.
proof fn lemma_spin_times(a: int, x: int)
    requires
        a == 1 || a == -1,
    ensures
        a * x == (if a == 1 {
            x
        } else {
            -x
        }),
{
    assert(1 * x == x && (-1) * x == -x) by (nonlinear_arith);
}

/// Number of the four directions in which a site is its own neighbour: two
/// on a lattice of a single column, and two on a lattice of a single row.
pub open spec fn self_bonds(lx: int, ly: int) -> int {
    (if lx == 1 {
        2int
    } else {
        0int
    }) + (if ly == 1 {
        2int
    } else {
        0int
    })
}

/// A flip of the spin at site `k` changes the energy by twice the cost that
/// the Metropolis rule attributes to it, less four for each direction in
/// which the site is its own neighbour. The energy counts every bond of the
/// site from both ends, and the bond of a site with itself does not change.
pub proof fn lemma_flip_changes_energy(s: Seq<i32>, lx: int, ly: int, k: int)
    requires
        1 <= lx,
        1 <= ly,
        s.len() == lx * ly,
        all_spins(s),
        0 <= k < lx * ly,
    ensures
        energy(flipped(s, k), lx, ly) - energy(s, lx, ly) == 2 * flip_cost(s, lx, ly, k) - 4
            * self_bonds(lx, ly),
{
    let n = (lx * ly) as nat;
    let t = flipped(s, k);
    let once = site_bonds_once(s, lx, ly);
    let after = site_bonds_once(t, lx, ly);
    let change = |i: int| after(i) - once(i);
    let wk = west(lx, ly, k);
    let sk = south(lx, ly, k);
    let beside = if lx == 1 {
        n as int
    } else {
        wk
    };
    let below = if ly == 1 {
        n as int + 1
    } else {
        sk
    };
    lemma_energy_counts_bonds_twice(s, lx, ly);
    lemma_energy_counts_bonds_twice(t, lx, ly);
    lemma_neighbour_sum_range(s, lx, ly, k);
    lemma_neighbour_symmetric(lx, ly, k, 1);
    lemma_neighbour_symmetric(lx, ly, k, 3);
    assert(east(lx, ly, wk) == k);
    assert(north(lx, ly, sk) == k);
    if lx == 1 {
        lemma_single_column(ly, k);
    } else {
        lemma_columns_apart(lx, ly, k);
    }
    if ly == 1 {
        lemma_single_row(lx, k);
    } else {
        lemma_rows_apart(lx, ly, k);
    }
    assert forall|i: int| 0 <= i < n && i != k && i != beside && i != below implies #[trigger] change(
        i,
    ) == 0 by {
        lemma_neighbour_symmetric(lx, ly, i, 0);
        lemma_neighbour_symmetric(lx, ly, i, 2);
        lemma_neighbour_sum_range(s, lx, ly, i);
        if lx == 1 {
            lemma_single_column(ly, i);
        }
        if ly == 1 {
            lemma_single_row(lx, i);
        }
        assert(east(lx, ly, i) != k);
        assert(north(lx, ly, i) != k);
    }
    lemma_sum_three(change, k, beside, below, n);
    lemma_sum_add(once, change, after, n);
    let c = s[k] as int;
    let e = s[east(lx, ly, k)] as int;
    let w = s[wk] as int;
    let no = s[north(lx, ly, k)] as int;
    let so = s[sk] as int;
    assert(c == 1 || c == -1);
    assert(e == 1 || e == -1);
    assert(no == 1 || no == -1);
    assert(w == 1 || w == -1);
    assert(so == 1 || so == -1);
    assert(t[k] == -c);
    let te = t[east(lx, ly, k)] as int;
    let tn = t[north(lx, ly, k)] as int;
    assert(te == (if lx == 1 {
        -c
    } else {
        e
    }));
    assert(tn == (if ly == 1 {
        -c
    } else {
        no
    }));
    lemma_spin_times(c, e + no);
    lemma_spin_times(-c, te + tn);
    lemma_spin_times(c, e + w + no + so);
    lemma_spin_times(c, w);
    lemma_spin_times(c, so);
    assert(2 * c * (e + w + no + so) == 2 * (c * (e + w + no + so))) by (nonlinear_arith);
    assert(change(k) == (-c) * (te + tn) - c * (e + no));
    if lx > 1 {
        assert(change(wk) == -2 * (c * w)) by {
            lemma_neighbour_sum_range(s, lx, ly, wk);
            let other = s[north(lx, ly, wk)] as int;
            assert(t[north(lx, ly, wk)] == other);
            assert(t[wk] == w);
            lemma_spin_times(w, -c + other);
            lemma_spin_times(w, c + other);
        }
    }
    if ly > 1 {
        assert(change(sk) == -2 * (c * so)) by {
            lemma_neighbour_sum_range(s, lx, ly, sk);
            let other = s[east(lx, ly, sk)] as int;
            assert(t[east(lx, ly, sk)] == other);
            assert(t[sk] == so);
            lemma_spin_times(so, other - c);
            lemma_spin_times(so, other + c);
        }
    }
}

/// A flip whose cost is four times the number of directions in which a site
/// is its own neighbour, which is a cost of zero where no site is its own
/// neighbour, changes the energy by exactly its cost.
pub proof fn lemma_flip_cost_is_energy_change(s: Seq<i32>, lx: int, ly: int, k: int)
    requires
        1 <= lx,
        1 <= ly,
        s.len() == lx * ly,
        all_spins(s),
        0 <= k < lx * ly,
        flip_cost(s, lx, ly, k) == 4 * self_bonds(lx, ly),
    ensures
        energy(flipped(s, k), lx, ly) - energy(s, lx, ly) == flip_cost(s, lx, ly, k),
{
    lemma_flip_changes_energy(s, lx, ly, k);
}

impl Configuration {
    /// Total energy of the configuration.
    pub open spec fn energy(&self) -> int {
        energy(self.cfg@, self.lx as int, self.ly as int)
    }

    /// Sum of the spins of the four neighbours of site `idx`, read through
    /// the neighbour table.
    fn neighbour_spins(&self, idx: usize) -> (total: i32)
        requires
            self.wf(),
            idx < self.sites(),
        ensures
            total == neighbour_sum(self.cfg@, self.lx as int, self.ly as int, idx as int),
            -4 <= total <= 4,
    {
        proof {
            lemma_neighbour_sum_range(self.cfg@, self.lx as int, self.ly as int, idx as int);
            assert((4 * idx) / 4 == idx && (4 * idx + 1) / 4 == idx && (4 * idx + 2) / 4 == idx && (
            4 * idx + 3) / 4 == idx);
        }
        let to_east: usize = self.neighbours[4 * idx];
        let to_west: usize = self.neighbours[4 * idx + 1];
        let to_north: usize = self.neighbours[4 * idx + 2];
        let to_south: usize = self.neighbours[4 * idx + 3];
        self.cfg[to_east] + self.cfg[to_west] + self.cfg[to_north] + self.cfg[to_south]
    }
}

/// Total energy of the configuration.
pub fn hamiltonian(cfg: &Configuration) -> (total: i32)
    requires
        cfg.wf(),
    ensures
        total == cfg.energy(),
        -4 * cfg.sites() <= total <= 4 * cfg.sites(),
{
    let sites: usize = cfg.len();
    let mut bonds: i32 = 0;
    let ghost f = site_bonds(cfg.cfg@, cfg.lx as int, cfg.ly as int);
    for idx in 0..sites
        invariant
            cfg.wf(),
            sites == cfg.sites(),
            f == site_bonds(cfg.cfg@, cfg.lx as int, cfg.ly as int),
            bonds == sum(f, idx as nat),
            -4 * idx <= bonds <= 4 * idx,
    {
        let around: i32 = cfg.neighbour_spins(idx);
        let spin: i32 = cfg.cfg[idx];
        assert(spin == 1 || spin == -1);
        assert(spin * around == f(idx as int));
        assert(-4 <= spin * around <= 4) by (nonlinear_arith)
            requires
                spin == 1 || spin == -1,
                -4 <= around <= 4,
        ;
        bonds = bonds + spin * around;
    }
    -bonds
}

/// Total magnetisation of the configuration: the sum of its spins. The mean
/// magnetisation per site is this sum over the number of sites, and lies
/// between -1 and 1.
pub fn magnetisation(cfg: &Configuration) -> (total: i32)
    requires
        cfg.wf(),
    ensures
        total == total_spin(cfg.cfg@),
        -cfg.sites() <= total <= cfg.sites(),
{
    let sites: usize = cfg.len();
    let mut total: i32 = 0;
    let ghost f = spin_at(cfg.cfg@);
    for idx in 0..sites
        invariant
            cfg.wf(),
            sites == cfg.sites(),
            f == spin_at(cfg.cfg@),
            total == sum(f, idx as nat),
            -idx <= total <= idx,
    {
        let spin: i32 = cfg.cfg[idx];
        assert(spin == 1 || spin == -1);
        total = total + spin;
    }
    total
}

/// Change of energy that the Metropolis rule weighs for a flip of the spin
/// at site `idx`: twice that spin times the sum of its neighbours' spins.
pub fn delta_e(cfg: &Configuration, idx: usize) -> (delta: i32)
    requires
        cfg.wf(),
        idx < cfg.sites(),
    ensures
        delta == flip_cost(cfg.cfg@, cfg.lx as int, cfg.ly as int, idx as int),
        delta == -8 || delta == -4 || delta == 0 || delta == 4 || delta == 8,
{
    proof {
        lemma_neighbour_sum_range(cfg.cfg@, cfg.lx as int, cfg.ly as int, idx as int);
    }
    let around: i32 = cfg.neighbour_spins(idx);
    let spin: i32 = cfg.cfg[idx];
    assert(spin == 1 || spin == -1);
    assert(-8 <= 2 * spin * around <= 8) by (nonlinear_arith)
        requires
            spin == 1 || spin == -1,
            -4 <= around <= 4,
    ;
    2 * spin * around
}

} // verus!
