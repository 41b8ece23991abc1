//! The Metropolis update: sweeps of single-spin flip trials at random sites.

use crate::configuration::Configuration;
use crate::observables::Observables;
use crate::configuration::flipped;
use crate::physics::delta_e;
use crate::physics::flip_cost;
use crate::physics::self_bonds;
use crate::physics::lemma_flip_changes_energy;
use crate::physics::lemma_total_spin_range;
use crate::physics::magnetisation;
use crate::physics::total_spin;
use crate::rng::Rng;
use crate::rng::RESOLUTION;
use crate::trials::after_sweeps;
use crate::trials::after_trials;
use crate::trials::differing;
use crate::trials::is_run;
use crate::trials::is_sampled;
use crate::trials::lemma_after_concat;
use crate::trials::lemma_after_push;
use crate::trials::lemma_changed_sites;
use crate::trials::lemma_cold_trials_stay;
use crate::trials::lemma_sampled_after;
use crate::trials::lemma_sampled_push;
use crate::trials::lemma_sampled_record;
use crate::trials::valid_picks;
use vstd::prelude::*;

verus! {

/// The chance with which a flip that costs energy is accepted, for each
/// cost that occurs on the square lattice, in steps of `1 / RESOLUTION`.
/// At inverse temperature `beta` the chance for a cost `d` is `exp(-beta * d)`.
#[derive(Clone, Copy, Debug)]
pub struct Acceptance {
    /// For a cost of 4.
    pub weak: u64,
    /// For a cost of 8.
    pub strong: u64,
}

impl Acceptance {
    /// The chance of a flip that costs `delta`, in steps of `1 / RESOLUTION`.
    pub open spec fn chance(&self, delta: int) -> int {
        if delta <= 0 {
            RESOLUTION as int
        } else if delta <= 4 {
            self.weak as int
        } else {
            self.strong as int
        }
    }

    /// The rule: a flip that costs nothing is accepted, one that costs
    /// `delta` is accepted when its chance exceeds the draw.
    pub open spec fn accepts(&self, delta: int, draw: int) -> bool {
        delta <= 0 || draw < self.chance(delta)
    }

    /// No flip that costs energy is ever accepted: the limit of zero temperature.
    pub open spec fn is_cold(&self) -> bool {
        self.weak == 0 && self.strong == 0
    }

    /// Every flip is accepted: the limit of infinite temperature.
    pub open spec fn is_hot(&self) -> bool {
        self.weak >= RESOLUTION && self.strong >= RESOLUTION
    }

    /// Decides a trial whose flip costs `delta`, with `draw` the number
    /// drawn for it.
    pub fn accept(&self, delta: i32, draw: u64) -> (accepted: bool)
        ensures
            accepted == self.accepts(delta as int, draw as int),
    {
        if delta <= 0 {
            true
        } else if delta <= 4 {
            draw < self.weak
        } else {
            draw < self.strong
        }
    }
}

/// In the cold limit exactly the flips that cost no energy are accepted,
/// whatever is drawn.
pub proof fn lemma_cold_limit(acceptance: Acceptance, delta: int, draw: int)
    requires
        acceptance.is_cold(),
        0 <= draw,
    ensures
        acceptance.accepts(delta, draw) <==> delta <= 0,
{
}

/// In the hot limit every flip is accepted, whatever is drawn.
pub proof fn lemma_hot_limit(acceptance: Acceptance, delta: int, draw: int)
    requires
        acceptance.is_hot(),
        0 <= draw < RESOLUTION,
    ensures
        acceptance.accepts(delta, draw),
{
}

/// A higher chance accepts whatever a lower one accepts.
pub proof fn lemma_accepts_monotone(low: Acceptance, high: Acceptance, delta: int, draw: int)
    requires
        low.weak <= high.weak,
        low.strong <= high.strong,
        low.accepts(delta, draw),
    ensures
        high.accepts(delta, draw),
{
}

/// One trial: the flip of the spin at site `idx` is accepted or not, by the
/// rule of `acceptance` on its cost and on `draw`. An accepted flip changes
/// the spin and adds its cost to `energy`; a rejected one changes nothing.
pub fn trial(
    cfg: &mut Configuration,
    energy: &mut i64,
    acceptance: &Acceptance,
    idx: usize,
    draw: u64,
) -> (accepted: bool)
    requires
        old(cfg).wf(),
        idx < old(cfg).sites(),
        i64::MIN + 8 <= *old(energy) <= i64::MAX - 8,
    ensures
        accepted == acceptance.accepts(
            flip_cost(old(cfg).cfg@, old(cfg).lx as int, old(cfg).ly as int, idx as int),
            draw as int,
        ),
        final(cfg).wf(),
        final(cfg).same_lattice(old(cfg)),
        accepted ==> final(cfg).cfg@ == flipped(old(cfg).cfg@, idx as int),
        accepted ==> *final(energy) == *old(energy) + flip_cost(
            old(cfg).cfg@,
            old(cfg).lx as int,
            old(cfg).ly as int,
            idx as int,
        ),
        !accepted ==> final(cfg).cfg@ == old(cfg).cfg@ && *final(energy) == *old(energy),
{
    let delta: i32 = delta_e(cfg, idx);
    if acceptance.accept(delta, draw) {
        cfg.flip(idx);
        *energy += delta as i64;
        true
    } else {
        false
    }
}

/// Runs `nsweep` sweeps. A sweep is one trial per site of the lattice, each
/// at a site drawn anew: the flip of its spin is accepted if it costs no
/// energy, and else with the chance that `acceptance` gives its cost. An
/// accepted flip changes the spin and adds its cost to `energy`. After each
/// sweep a sample of `energy` and of the magnetisation goes to `obs`, if
/// there is one. Returns the number of accepted flips.
pub fn evolve(
    cfg: &mut Configuration,
    energy: &mut i64,
    acceptance: &Acceptance,
    rng: &mut Rng,
    nsweep: usize,
    mut obs: Option<&mut Observables>,
) -> (naccept: usize)
    requires
        old(cfg).wf(),
        nsweep * old(cfg).sites() <= usize::MAX,
        i64::MIN <= *old(energy) - 8 * (nsweep * old(cfg).sites()),
        *old(energy) + 8 * (nsweep * old(cfg).sites()) <= i64::MAX,
        obs.is_some() ==> obs.unwrap().wf(),
    ensures
        final(cfg).wf(),
        final(cfg).same_lattice(old(cfg)),
        naccept <= nsweep * old(cfg).sites(),
        -8 * naccept <= *final(energy) - *old(energy) <= 8 * naccept,
        nsweep == 0 ==> naccept == 0 && final(cfg).cfg@ == old(cfg).cfg@,
        acceptance.is_cold() ==> *final(energy) <= *old(energy),
        final(cfg).energy() - old(cfg).energy() == 2 * (*final(energy) - *old(energy)) - 4
            * self_bonds(old(cfg).lx as int, old(cfg).ly as int) * naccept,
        acceptance.is_hot() ==> naccept == nsweep * old(cfg).sites(),
        obs.is_some() ==> final(obs.unwrap()).wf(),
        obs.is_some() ==> final(obs.unwrap()).extends(obs.unwrap(), nsweep as int),
        obs.is_some() ==> final(obs.unwrap()).bounded_from(
            obs.unwrap().samples() as int,
            old(cfg).sites(),
            *old(energy) - 8 * (nsweep * old(cfg).sites()),
            *old(energy) + 8 * (nsweep * old(cfg).sites()),
        ),
        obs.is_some() && nsweep > 0 ==> final(obs.unwrap()).energy@.last() == *final(energy),
        obs.is_some() && nsweep > 0 ==> final(obs.unwrap()).magnetisation@.last() == total_spin(
            final(cfg).cfg@,
        ),
        exists|picks: Seq<(int, int)>|
            #[trigger] is_run(
                picks,
                old(cfg).cfg@,
                old(cfg).lx as int,
                old(cfg).ly as int,
                *acceptance,
                nsweep * old(cfg).sites(),
                final(cfg).cfg@,
                *final(energy) - *old(energy),
                naccept as int,
            ) && (obs.is_some() ==> is_sampled(
                picks,
                old(cfg).cfg@,
                old(cfg).lx as int,
                old(cfg).ly as int,
                *acceptance,
                *old(energy) as int,
                0,
                final(obs.unwrap()).energy@,
                final(obs.unwrap()).magnetisation@,
                obs.unwrap().samples() as int,
            )),
        differing(old(cfg).cfg@, final(cfg).cfg@) <= naccept,
        (naccept - differing(old(cfg).cfg@, final(cfg).cfg@)) % 2 == 0,
        acceptance.is_cold() && (forall|i: int|
            0 <= i < old(cfg).sites() ==> #[trigger] flip_cost(
                old(cfg).cfg@,
                old(cfg).lx as int,
                old(cfg).ly as int,
                i,
            ) > 0) ==> naccept == 0 && final(cfg).cfg@ == old(cfg).cfg@ && *final(energy) == *old(
            energy,
        ) && (obs.is_some() ==> final(obs.unwrap()).constant_from(
            obs.unwrap().samples() as int,
            *old(energy) as int,
            total_spin(old(cfg).cfg@),
        )),
{
    let sites: usize = cfg.len();
    let mut naccept: usize = 0;
    let ghost start = *energy;
    let ghost first = cfg.cfg@;
    let ghost initial = cfg.energy();
    let ghost bonds = self_bonds(cfg.lx as int, cfg.ly as int);
    let ghost glx = cfg.lx as int;
    let ghost gly = cfg.ly as int;
    let ghost mut picks: Seq<(int, int)> = Seq::empty();
    let ghost had = obs.is_some();
    let ghost given = obs;
    let ghost prior: Option<Observables> = if obs.is_some() {
        Some(*obs.unwrap())
    } else {
        None
    };
    proof {
        assert(0 * sites == 0 && bonds * 0 == 0) by (nonlinear_arith);
    }
    for sweep in 0..nsweep
        invariant
            cfg.wf(),
            cfg.same_lattice(old(cfg)),
            sites == cfg.sites(),
            nsweep * sites <= usize::MAX,
            i64::MIN <= start - 8 * (nsweep * sites),
            start + 8 * (nsweep * sites) <= i64::MAX,
            naccept <= sweep * sites,
            picks.len() == sweep * sites,
            glx == cfg.lx && gly == cfg.ly,
            valid_picks(picks, sites as int),
            cfg.cfg@ == after_trials(first, glx, gly, *acceptance, picks).0,
            *energy - start == after_trials(first, glx, gly, *acceptance, picks).1,
            naccept == after_trials(first, glx, gly, *acceptance, picks).2,
            obs.is_some() ==> is_sampled(
                picks,
                first,
                glx,
                gly,
                *acceptance,
                start as int,
                0,
                (*obs.unwrap()).energy@,
                (*obs.unwrap()).magnetisation@,
                prior.unwrap().samples() as int,
            ),
            -8 * naccept <= *energy - start <= 8 * naccept,
            sweep == 0 ==> cfg.cfg@ == first,
            acceptance.is_cold() ==> *energy <= start,
            acceptance.is_hot() ==> naccept == sweep * sites,
            bonds == self_bonds(cfg.lx as int, cfg.ly as int),
            cfg.energy() - initial == 2 * (*energy - start) - 4 * (bonds * naccept),
            obs.is_some() ==> (*obs.unwrap()).extends(&prior.unwrap(), sweep as int),
            obs.is_some() ==> (*obs.unwrap()).bounded_from(
                prior.unwrap().samples() as int,
                sites as int,
                start - 8 * (nsweep * sites),
                start + 8 * (nsweep * sites),
            ),
            obs.is_some() == had,
            prior.is_some() == had,
            had ==> prior.unwrap().wf(),
            obs.is_some() ==> *final(obs.unwrap()) == *final(given.unwrap()),
            obs.is_some() && sweep > 0 ==> (*obs.unwrap()).energy@.last() == *energy,
            obs.is_some() && sweep > 0 ==> (*obs.unwrap()).magnetisation@.last() == total_spin(
                cfg.cfg@,
            ),
    {
        proof {
            assert((sweep + 1) * sites == sweep * sites + sites && (sweep + 1) * sites <= nsweep
                * sites) by (nonlinear_arith)
                requires
                    sweep < nsweep,
                    0 <= sites,
            ;
        }
        for step in 0..sites
            invariant
                cfg.wf(),
                cfg.same_lattice(old(cfg)),
                sites == cfg.sites(),
                sweep * sites + sites <= nsweep * sites,
                nsweep * sites <= usize::MAX,
                i64::MIN <= start - 8 * (nsweep * sites),
                start + 8 * (nsweep * sites) <= i64::MAX,
                naccept <= sweep * sites + step,
                picks.len() == sweep * sites + step,
                glx == cfg.lx && gly == cfg.ly,
                valid_picks(picks, sites as int),
                cfg.cfg@ == after_trials(first, glx, gly, *acceptance, picks).0,
                *energy - start == after_trials(first, glx, gly, *acceptance, picks).1,
                naccept == after_trials(first, glx, gly, *acceptance, picks).2,
                obs.is_some() ==> is_sampled(
                    picks,
                    first,
                    glx,
                    gly,
                    *acceptance,
                    start as int,
                    0,
                    (*obs.unwrap()).energy@,
                    (*obs.unwrap()).magnetisation@,
                    prior.unwrap().samples() as int,
                ),
                -8 * naccept <= *energy - start <= 8 * naccept,
                acceptance.is_cold() ==> *energy <= start,
                acceptance.is_hot() ==> naccept == sweep * sites + step,
                bonds == self_bonds(cfg.lx as int, cfg.ly as int),
                cfg.energy() - initial == 2 * (*energy - start) - 4 * (bonds * naccept),
                obs.is_some() == had,
                prior.is_some() == had,
                had ==> prior.unwrap().wf(),
                obs.is_some() ==> (*obs.unwrap()).extends(&prior.unwrap(), sweep as int),
                obs.is_some() ==> (*obs.unwrap()).bounded_from(
                    prior.unwrap().samples() as int,
                    sites as int,
                    start - 8 * (nsweep * sites),
                    start + 8 * (nsweep * sites),
                ),
                obs.is_some() ==> *final(obs.unwrap()) == *final(given.unwrap()),
        {
            let idx: usize = rng.gen_index(sites);
            let draw: u64 = if delta_e(cfg, idx) <= 0 {
                0
            } else {
                rng.gen_real()
            };
            proof {
                lemma_flip_changes_energy(cfg.cfg@, cfg.lx as int, cfg.ly as int, idx as int);
                assert(bonds * (naccept + 1) == bonds * naccept + bonds) by (nonlinear_arith);
                let pick = (idx as int, draw as int);
                lemma_after_push(first, glx, gly, *acceptance, picks, pick);
                if obs.is_some() {
                    assert(0 <= sweep * sites) by (nonlinear_arith);
                    lemma_sampled_push(
                        picks,
                        pick,
                        first,
                        glx,
                        gly,
                        *acceptance,
                        start as int,
                        (*obs.unwrap()).energy@,
                        (*obs.unwrap()).magnetisation@,
                        prior.unwrap().samples() as int,
                    );
                }
                picks = picks.push(pick);
            }
            if trial(cfg, energy, acceptance, idx, draw) {
                naccept += 1;
            }
        }
        proof {
            if obs.is_some() {
                assert((sweep + 1) * sites == sweep * sites + sites) by (nonlinear_arith);
                lemma_total_spin_range(cfg.cfg@);
                lemma_sampled_record(
                    picks,
                    first,
                    glx,
                    gly,
                    *acceptance,
                    start as int,
                    (*obs.unwrap()).energy@,
                    (*obs.unwrap()).magnetisation@,
                    prior.unwrap().samples() as int,
                    *energy,
                    total_spin(cfg.cfg@) as i32,
                );
            }
        }
        match &mut obs {
            Some(sink) => {
                sink.record(*energy, magnetisation(cfg));
            },
            None => {},
        }
    }
    proof {
        assert(4 * bonds * naccept == 4 * (bonds * naccept)) by (nonlinear_arith);
        lemma_changed_sites(first, glx, gly, *acceptance, picks);
        if acceptance.is_cold() && (forall|i: int|
            0 <= i < sites ==> #[trigger] flip_cost(first, glx, gly, i) > 0) {
            lemma_cold_trials_stay(first, glx, gly, *acceptance, picks);
            if obs.is_some() {
                let from = prior.unwrap().samples() as int;
                let seen = *obs.unwrap();
                assert forall|n: int| 1 <= n <= nsweep implies #[trigger] after_sweeps(
                    first,
                    glx,
                    gly,
                    *acceptance,
                    picks,
                    n,
                ).0 == first && after_sweeps(first, glx, gly, *acceptance, picks, n).1 == 0 by {
                    assert(0 <= n * sites <= nsweep * sites) by (nonlinear_arith)
                        requires
                            1 <= n <= nsweep,
                            0 <= sites,
                    ;
                    lemma_cold_trials_stay(
                        first,
                        glx,
                        gly,
                        *acceptance,
                        picks.take(n * (glx * gly)),
                    );
                }
                assert forall|k: int| from <= k < seen.energy@.len() implies #[trigger] seen.energy@[k]
                    == start by {
                    let n = 0 + k - from + 1;
                    assert(after_sweeps(first, glx, gly, *acceptance, picks, n).1 == 0);
                }
                assert forall|k: int|
                    from <= k < seen.magnetisation@.len() implies #[trigger] seen.magnetisation@[k]
                    == total_spin(first) by {
                    let n = 0 + k - from + 1;
                    assert(after_sweeps(first, glx, gly, *acceptance, picks, n).0 == first);
                }
                assert(seen.constant_from(from, start as int, total_spin(first)));
            }
        }
        assert(is_run(
            picks,
            first,
            glx,
            gly,
            *acceptance,
            nsweep * sites,
            cfg.cfg@,
            *energy - start,
            naccept as int,
        ));
    }
    naccept
}

/// What a run at one temperature gives.
pub struct Measurement {
    /// Number of flips accepted while the configuration settled.
    pub thermalisation_accepted: usize,
    /// Number of flips accepted while the observables were recorded.
    pub production_accepted: usize,
    /// The observables, one sample per production sweep.
    pub observables: Observables,
}

/// A run at one temperature: `ntherm` sweeps that are not recorded, to let
/// the configuration settle, then `nprod` sweeps with one sample each. The
/// configuration and the running energy carry over from whatever came before.
pub fn measure(
    cfg: &mut Configuration,
    energy: &mut i64,
    acceptance: &Acceptance,
    rng: &mut Rng,
    ntherm: usize,
    nprod: usize,
) -> (run: Measurement)
    requires
        old(cfg).wf(),
        (ntherm + nprod) * old(cfg).sites() <= usize::MAX,
        i64::MIN <= *old(energy) - 8 * ((ntherm + nprod) * old(cfg).sites()),
        *old(energy) + 8 * ((ntherm + nprod) * old(cfg).sites()) <= i64::MAX,
    ensures
        final(cfg).wf(),
        final(cfg).same_lattice(old(cfg)),
        run.thermalisation_accepted <= ntherm * old(cfg).sites(),
        run.production_accepted <= nprod * old(cfg).sites(),
        -8 * (run.thermalisation_accepted + run.production_accepted) <= *final(energy) - *old(
            energy,
        ) <= 8 * (run.thermalisation_accepted + run.production_accepted),
        ntherm == 0 && nprod == 0 ==> final(cfg).cfg@ == old(cfg).cfg@,
        acceptance.is_cold() ==> *final(energy) <= *old(energy),
        acceptance.is_hot() ==> run.thermalisation_accepted == ntherm * old(cfg).sites()
            && run.production_accepted == nprod * old(cfg).sites(),
        final(cfg).energy() - old(cfg).energy() == 2 * (*final(energy) - *old(energy)) - 4
            * self_bonds(old(cfg).lx as int, old(cfg).ly as int) * (run.thermalisation_accepted
            + run.production_accepted),
        run.observables.wf(),
        run.observables.samples() == nprod,
        nprod > 0 ==> run.observables.energy@.last() == *final(energy),
        nprod > 0 ==> run.observables.magnetisation@.last() == total_spin(final(cfg).cfg@),
        exists|picks: Seq<(int, int)>|
            #[trigger] is_run(
                picks,
                old(cfg).cfg@,
                old(cfg).lx as int,
                old(cfg).ly as int,
                *acceptance,
                (ntherm + nprod) * old(cfg).sites(),
                final(cfg).cfg@,
                *final(energy) - *old(energy),
                run.thermalisation_accepted + run.production_accepted,
            ) && run.thermalisation_accepted == after_sweeps(
                old(cfg).cfg@,
                old(cfg).lx as int,
                old(cfg).ly as int,
                *acceptance,
                picks,
                ntherm as int,
            ).2 && is_sampled(
                picks,
                old(cfg).cfg@,
                old(cfg).lx as int,
                old(cfg).ly as int,
                *acceptance,
                *old(energy) as int,
                ntherm as int,
                run.observables.energy@,
                run.observables.magnetisation@,
                0,
            ),
        differing(old(cfg).cfg@, final(cfg).cfg@) <= run.thermalisation_accepted
            + run.production_accepted,
        (run.thermalisation_accepted + run.production_accepted - differing(
            old(cfg).cfg@,
            final(cfg).cfg@,
        )) % 2 == 0,
        acceptance.is_cold() && (forall|i: int|
            0 <= i < old(cfg).sites() ==> #[trigger] flip_cost(
                old(cfg).cfg@,
                old(cfg).lx as int,
                old(cfg).ly as int,
                i,
            ) > 0) ==> run.thermalisation_accepted == 0 && run.production_accepted == 0
            && final(cfg).cfg@ == old(cfg).cfg@ && *final(energy) == *old(energy)
            && run.observables.constant_from(0, *old(energy) as int, total_spin(old(cfg).cfg@)),
{
    proof {
        let sites = cfg.sites();
        assert((ntherm + nprod) * sites == ntherm * sites + nprod * sites && 0 <= ntherm * sites
            && 0 <= nprod * sites) by (nonlinear_arith)
            requires
                0 <= sites,
        ;
    }
    let ghost glx = cfg.lx as int;
    let ghost gly = cfg.ly as int;
    let ghost sites = cfg.sites();
    let ghost s0 = cfg.cfg@;
    let ghost e0 = *energy as int;
    let thermalisation_accepted: usize = evolve(cfg, energy, acceptance, rng, ntherm, None);
    let ghost s1 = cfg.cfg@;
    let ghost e1 = *energy as int;
    let mut observables = Observables::new();
    let production_accepted: usize = evolve(
        cfg,
        energy,
        acceptance,
        rng,
        nprod,
        Some(&mut observables),
    );
    proof {
        let first = choose|picks: Seq<(int, int)>|
            #[trigger] is_run(
                picks,
                s0,
                glx,
                gly,
                *acceptance,
                ntherm * sites,
                s1,
                e1 - e0,
                thermalisation_accepted as int,
            );
        let second = choose|picks: Seq<(int, int)>|
            #[trigger] is_run(
                picks,
                s1,
                glx,
                gly,
                *acceptance,
                nprod * sites,
                cfg.cfg@,
                *energy - e1,
                production_accepted as int,
            ) && is_sampled(
                picks,
                s1,
                glx,
                gly,
                *acceptance,
                e1,
                0,
                observables.energy@,
                observables.magnetisation@,
                0,
            );
        let all = first + second;
        assert(0 <= glx * gly) by (nonlinear_arith)
            requires
                0 <= glx,
                0 <= gly,
        ;
        assert forall|k: int| 0 <= k < all.len() implies 0 <= (#[trigger] all[k]).0 < glx * gly
            && 0 <= all[k].1 < RESOLUTION by {
            if k < first.len() {
                assert(all[k] == first[k]);
            } else {
                assert(all[k] == second[k - first.len()]);
            }
        }
        lemma_after_concat(s0, glx, gly, *acceptance, first, second);
        lemma_sampled_after(
            first,
            second,
            s0,
            glx,
            gly,
            *acceptance,
            e0,
            ntherm as int,
            observables.energy@,
            observables.magnetisation@,
        );
        lemma_changed_sites(s0, glx, gly, *acceptance, all);
        assert(is_run(
            all,
            s0,
            glx,
            gly,
            *acceptance,
            (ntherm + nprod) * sites,
            cfg.cfg@,
            *energy - e0,
            thermalisation_accepted + production_accepted,
        ));
        let bonds = self_bonds(cfg.lx as int, cfg.ly as int);
        assert(4 * bonds * (thermalisation_accepted + production_accepted) == 4 * bonds
            * thermalisation_accepted + 4 * bonds * production_accepted) by (nonlinear_arith);
    }
    Measurement { thermalisation_accepted, production_accepted, observables }
}

} // verus!
