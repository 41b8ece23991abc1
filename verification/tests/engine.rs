use ising::configuration::Configuration;
use ising::engine::{evolve, Acceptance};
use ising::observables::Observables;
use ising::physics::{hamiltonian, magnetisation};
use ising::rng::{Rng, RESOLUTION};
use ising::schedule::list_temperatures;

fn acceptance_at(beta: f64) -> Acceptance {
    let steps = |p: f64| (p * RESOLUTION as f64).ceil() as u64;
    Acceptance { weak: steps((-4.0 * beta).exp()), strong: steps((-8.0 * beta).exp()) }
}

#[test]
fn no_sweeps_change_nothing() {
    let mut rng = Rng::from_seed([138; 32]);
    let mut cfg = Configuration::random(&mut rng, 4, 3);
    let spins = cfg.cfg.clone();
    let mut energy = hamiltonian(&cfg) as i64;
    let start = energy;
    let mut obs = Observables::new();
    let acceptance = acceptance_at(0.5);
    assert_eq!(evolve(&mut cfg, &mut energy, &acceptance, &mut rng, 0, Some(&mut obs)), 0);
    assert_eq!(cfg.cfg, spins);
    assert_eq!(energy, start);
    assert_eq!(obs.len(), 0);
    assert!(obs.energy.is_empty() && obs.magnetisation.is_empty());
    assert_eq!(evolve(&mut cfg, &mut energy, &acceptance, &mut rng, 0, None), 0);
    assert_eq!(cfg.cfg, spins);
    assert_eq!(energy, start);
}

#[test]
fn acceptance_rule() {
    let acceptance = Acceptance { weak: 100, strong: 10 };
    assert!(acceptance.accept(-8, RESOLUTION - 1));
    assert!(acceptance.accept(-4, RESOLUTION - 1));
    assert!(acceptance.accept(0, RESOLUTION - 1));
    assert!(acceptance.accept(4, 99));
    assert!(!acceptance.accept(4, 100));
    assert!(acceptance.accept(8, 9));
    assert!(!acceptance.accept(8, 10));
    assert!(!acceptance.accept(8, 99));
}

#[test]
fn cold_limit_never_raises_the_energy() {
    let mut rng = Rng::from_seed([9; 32]);
    let mut cfg = Configuration::random(&mut rng, 4, 3);
    let cold = Acceptance { weak: 0, strong: 0 };
    assert!(!cold.accept(4, 0));
    assert!(!cold.accept(8, 0));
    assert!(cold.accept(0, 0));
    let mut energy = hamiltonian(&cfg) as i64;
    let mut last = energy;
    for _ in 0..50 {
        evolve(&mut cfg, &mut energy, &cold, &mut rng, 1, None);
        assert!(energy <= last);
        last = energy;
    }
    let frozen = acceptance_at(1.0e6);
    assert_eq!(frozen.weak, 0);
    assert_eq!(frozen.strong, 0);
}

#[test]
fn hot_limit_accepts_every_flip() {
    let mut rng = Rng::from_seed([10; 32]);
    let mut cfg = Configuration::random(&mut rng, 4, 3);
    let hot = acceptance_at(0.0);
    assert_eq!(hot.weak, RESOLUTION);
    assert_eq!(hot.strong, RESOLUTION);
    let mut energy = hamiltonian(&cfg) as i64;
    assert_eq!(evolve(&mut cfg, &mut energy, &hot, &mut rng, 25, None), 25 * 12);
}

#[test]
fn one_sample_per_sweep() {
    let mut rng = Rng::from_seed([11; 32]);
    let mut cfg = Configuration::random(&mut rng, 4, 3);
    let acceptance = acceptance_at(0.4);
    let mut energy = hamiltonian(&cfg) as i64;
    let start = energy;
    let mut obs = Observables::new();
    obs.record(77, 3);
    let naccept = evolve(&mut cfg, &mut energy, &acceptance, &mut rng, 40, Some(&mut obs));
    assert!(naccept <= 40 * 12);
    assert!(naccept > 0);
    assert_eq!(obs.len(), 41);
    assert_eq!(obs.energy.len(), 41);
    assert_eq!(obs.magnetisation.len(), 41);
    assert_eq!(obs.energy[0], 77);
    assert_eq!(obs.magnetisation[0], 3);
    assert_eq!(obs.energy[40], energy);
    assert_eq!(obs.magnetisation[40], magnetisation(&cfg));
    assert!((energy - start).abs() <= 8 * naccept as i64);
    assert_eq!((energy - start) % 4, 0);
    assert!(cfg.cfg.iter().all(|s| *s == 1 || *s == -1));
    for m in obs.magnetisation.iter().skip(1) {
        assert!(-12 <= *m && *m <= 12);
    }
}

#[test]
fn running_energy_follows_half_the_hamiltonian() {
    let mut rng = Rng::from_seed([12; 32]);
    let mut cfg = Configuration::random(&mut rng, 4, 3);
    let acceptance = acceptance_at(0.3);
    let before = hamiltonian(&cfg) as i64;
    let mut energy = 0;
    evolve(&mut cfg, &mut energy, &acceptance, &mut rng, 30, None);
    assert_eq!(2 * energy, hamiltonian(&cfg) as i64 - before);
}

#[test]
fn evolve_is_fixed_by_the_seed() {
    let run = || {
        let mut rng = Rng::from_seed([13; 32]);
        let mut cfg = Configuration::random(&mut rng, 4, 3);
        let mut energy = hamiltonian(&cfg) as i64;
        let mut obs = Observables::new();
        let n = evolve(&mut cfg, &mut energy, &acceptance_at(0.5), &mut rng, 20, Some(&mut obs));
        (n, cfg.cfg, energy, obs.energy, obs.magnetisation)
    };
    assert_eq!(run(), run());
}

#[test]
fn observables_keep_append_order() {
    let mut obs = Observables::new();
    assert_eq!(obs.len(), 0);
    obs.record(-48, 12);
    obs.record(-40, 10);
    obs.record(-44, 12);
    assert_eq!(obs.energy, vec![-48, -40, -44]);
    assert_eq!(obs.magnetisation, vec![12, 10, 12]);
    assert_eq!(obs.len(), 3);
}

#[test]
fn default_schedule() {
    let halves = list_temperatures();
    assert_eq!(halves, vec![1, 2, 3, 4, 5, 6, 7, 8, 9, 10, 11, 12]);
    let temperatures: Vec<f64> = halves.iter().map(|h| *h as f64 * 0.5).collect();
    assert_eq!(temperatures[0], 0.5);
    assert_eq!(temperatures[11], 6.0);
}

#[test]
fn measurement_thermalises_then_records() {
    let mut rng = Rng::from_seed([14; 32]);
    let mut cfg = Configuration::random(&mut rng, 4, 3);
    let before = hamiltonian(&cfg) as i64;
    let mut energy = before;
    let run = ising::engine::measure(&mut cfg, &mut energy, &acceptance_at(0.25), &mut rng, 10, 30);
    assert!(run.thermalisation_accepted <= 120);
    assert!(run.production_accepted <= 360);
    assert_eq!(run.observables.len(), 30);
    assert_eq!(run.observables.magnetisation.len(), 30);
    assert_eq!(run.observables.energy[29], energy);
    assert_eq!(run.observables.magnetisation[29], magnetisation(&cfg));
    assert_eq!(hamiltonian(&cfg) as i64 - before, 2 * (energy - before));
}

#[test]
fn measurement_without_sweeps() {
    let mut rng = Rng::from_seed([15; 32]);
    let mut cfg = Configuration::random(&mut rng, 4, 3);
    let spins = cfg.cfg.clone();
    let mut energy = 5;
    let run = ising::engine::measure(&mut cfg, &mut energy, &acceptance_at(1.0), &mut rng, 0, 0);
    assert_eq!(run.thermalisation_accepted, 0);
    assert_eq!(run.production_accepted, 0);
    assert_eq!(run.observables.len(), 0);
    assert_eq!(cfg.cfg, spins);
    assert_eq!(energy, 5);
}

#[test]
fn trial_accepts_by_cost_and_draw() {
    let acceptance = Acceptance { weak: 1000, strong: 10 };
    // All spins up: every flip costs 8.
    let mut cfg = Configuration::from_spins(4, 3, vec![1; 12]).unwrap();
    let mut energy: i64 = -48;
    assert!(!ising::engine::trial(&mut cfg, &mut energy, &acceptance, 6, 10));
    assert_eq!(cfg.cfg, vec![1; 12]);
    assert_eq!(energy, -48);
    assert!(ising::engine::trial(&mut cfg, &mut energy, &acceptance, 6, 9));
    assert_eq!(cfg.cfg, vec![1, 1, 1, 1, 1, 1, -1, 1, 1, 1, 1, 1]);
    assert_eq!(energy, -40);
    // Site 5 now has three neighbours up and one down: a flip costs 4.
    assert!(!ising::engine::trial(&mut cfg, &mut energy, &acceptance, 5, 1000));
    assert_eq!(energy, -40);
    assert!(ising::engine::trial(&mut cfg, &mut energy, &acceptance, 5, 999));
    assert_eq!(cfg.cfg, vec![1, 1, 1, 1, 1, -1, -1, 1, 1, 1, 1, 1]);
    assert_eq!(energy, -36);
    // Flipping site 6 back costs -4: accepted whatever is drawn.
    assert!(ising::engine::trial(&mut cfg, &mut energy, &acceptance, 6, RESOLUTION - 1));
    assert_eq!(energy, -40);
    assert_eq!(hamiltonian(&cfg), -32);
}

#[test]
fn self_neighbours_keep_their_bonds() {
    // A single column: each site is its own neighbour to the east and west.
    let mut cfg = Configuration::from_spins(1, 3, vec![1, 1, 1]).unwrap();
    assert_eq!(hamiltonian(&cfg), -12);
    let cost = ising::physics::delta_e(&cfg, 1);
    assert_eq!(cost, 8);
    cfg.flip(1);
    assert_eq!(hamiltonian(&cfg), -4);
    assert_eq!(hamiltonian(&cfg) - (-12), 2 * cost - 8);
    // A single site: a flip costs 8 by the rule and leaves the energy as it is.
    let mut one = Configuration::from_spins(1, 1, vec![1]).unwrap();
    assert_eq!(ising::physics::delta_e(&one, 0), 8);
    one.flip(0);
    assert_eq!(hamiltonian(&one), -4);
}

#[test]
fn cold_limit_from_all_up_changes_nothing() {
    let mut rng = Rng::from_seed([138; 32]);
    let mut cfg = Configuration::from_spins(4, 3, vec![1; 12]).unwrap();
    let mut energy: i64 = -48;
    let mut obs = Observables::new();
    let cold = acceptance_at(1000.0);
    assert_eq!(cold.weak, 0);
    assert_eq!(cold.strong, 0);
    assert_eq!(evolve(&mut cfg, &mut energy, &cold, &mut rng, 3, Some(&mut obs)), 0);
    assert_eq!(cfg.cfg, vec![1; 12]);
    assert_eq!(energy, -48);
    assert_eq!(obs.energy, vec![-48, -48, -48]);
    assert_eq!(obs.magnetisation, vec![12, 12, 12]);
}

#[test]
fn free_flips_are_accepted_even_when_cold() {
    // Columns alternate up and down: every flip costs nothing.
    let spins = vec![1, -1, 1, -1, 1, -1, 1, -1, 1, -1, 1, -1];
    let mut rng = Rng::from_seed([21; 32]);
    let mut cfg = Configuration::from_spins(4, 3, spins.clone()).unwrap();
    for idx in 0..12 {
        assert_eq!(ising::physics::delta_e(&cfg, idx), 0);
    }
    let cold = Acceptance { weak: 0, strong: 0 };
    let mut energy: i64 = 0;
    let naccept = evolve(&mut cfg, &mut energy, &cold, &mut rng, 1, None);
    assert!(naccept >= 1);
    assert!(energy <= 0);
    assert_ne!(cfg.cfg, spins);
}

#[test]
fn changed_sites_against_accepted_flips() {
    let mut rng = Rng::from_seed([22; 32]);
    let mut cfg = Configuration::random(&mut rng, 4, 3);
    let before = cfg.cfg.clone();
    let mut energy: i64 = 0;
    let naccept = evolve(&mut cfg, &mut energy, &acceptance_at(0.3), &mut rng, 7, None);
    let changed = (0..12).filter(|i| cfg.cfg[*i] != before[*i]).count();
    assert!(changed <= naccept);
    assert_eq!((naccept - changed) % 2, 0);
}

#[test]
fn samples_follow_the_trials_sweep_by_sweep() {
    // The same seed, stopped after each sweep, gives the samples of the whole run.
    let acceptance = acceptance_at(0.4);
    let mut rng = Rng::from_seed([23; 32]);
    let mut cfg = Configuration::random(&mut rng, 4, 3);
    let mut energy = hamiltonian(&cfg) as i64;
    let mut obs = Observables::new();
    evolve(&mut cfg, &mut energy, &acceptance, &mut rng, 5, Some(&mut obs));
    let mut rng = Rng::from_seed([23; 32]);
    let mut cfg = Configuration::random(&mut rng, 4, 3);
    let mut energy = hamiltonian(&cfg) as i64;
    for sweep in 0..5 {
        evolve(&mut cfg, &mut energy, &acceptance, &mut rng, 1, None);
        assert_eq!(obs.energy[sweep], energy);
        assert_eq!(obs.magnetisation[sweep], magnetisation(&cfg));
    }
}
