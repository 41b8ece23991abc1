use ising::configuration::Configuration;
use ising::physics::{delta_e, hamiltonian, magnetisation};

fn pattern() -> Vec<i32> {
    vec![1, -1, -1, 1, 1, 1, -1, 1, -1, -1, 1, 1]
}

fn bonds_once(cfg: &Configuration) -> i32 {
    let mut total = 0;
    for i in 0..cfg.cfg.len() {
        total += cfg.cfg[i] * (cfg.cfg[cfg.neighbours[4 * i]] + cfg.cfg[cfg.neighbours[4 * i + 2]]);
    }
    -total
}

#[test]
fn aligned_lattice_energy() {
    let cfg = Configuration::from_spins(4, 3, vec![1; 12]).unwrap();
    assert_eq!(hamiltonian(&cfg), -48);
    assert_eq!(magnetisation(&cfg), 12);
    let down = Configuration::from_spins(4, 3, vec![-1; 12]).unwrap();
    assert_eq!(hamiltonian(&down), -48);
    assert_eq!(magnetisation(&down), -12);
}

#[test]
fn alternating_lattice_energy() {
    let spins = vec![1, -1, 1, -1, -1, 1, -1, 1, 1, -1, 1, -1, -1, 1, -1, 1];
    let cfg = Configuration::from_spins(4, 4, spins).unwrap();
    assert_eq!(hamiltonian(&cfg), 64);
    assert_eq!(magnetisation(&cfg), 0);
    assert_eq!(delta_e(&cfg, 5), -8);
}

#[test]
fn energy_is_twice_the_bond_sum() {
    let cfg = Configuration::from_spins(4, 3, pattern()).unwrap();
    assert_eq!(hamiltonian(&cfg), 2 * bonds_once(&cfg));
    assert_eq!(hamiltonian(&cfg), 0);
    let aligned = Configuration::from_spins(3, 3, vec![1; 9]).unwrap();
    assert_eq!(bonds_once(&aligned), -18);
    assert_eq!(hamiltonian(&aligned), -36);
}

#[test]
fn delta_e_values() {
    let cfg = Configuration::from_spins(4, 3, vec![1; 12]).unwrap();
    for idx in 0..12 {
        assert_eq!(delta_e(&cfg, idx), 8);
    }
    let cfg = Configuration::from_spins(4, 3, pattern()).unwrap();
    // Site 0 is up; its neighbours 1, 3, 4, 8 hold -1, 1, 1, -1.
    assert_eq!(delta_e(&cfg, 0), 0);
    // Site 5 is up; its neighbours 6, 4, 9, 1 hold -1, 1, -1, -1.
    assert_eq!(delta_e(&cfg, 5), -4);
    // Site 2 is down; its neighbours 3, 1, 6, 10 hold 1, -1, -1, 1.
    assert_eq!(delta_e(&cfg, 2), 0);
    // Site 9 is down; its neighbours 10, 8, 1, 5 hold 1, -1, -1, 1.
    assert_eq!(delta_e(&cfg, 9), 0);
    // Site 11 is up; its neighbours 8, 10, 3, 7 hold -1, 1, 1, 1.
    assert_eq!(delta_e(&cfg, 11), 4);
}

#[test]
fn a_flip_moves_the_energy_by_twice_its_cost() {
    for idx in 0..12 {
        let mut cfg = Configuration::from_spins(4, 3, pattern()).unwrap();
        let before = hamiltonian(&cfg);
        let cost = delta_e(&cfg, idx);
        cfg.flip(idx);
        assert_eq!(hamiltonian(&cfg) - before, 2 * cost);
        assert_eq!(delta_e(&cfg, idx), -cost);
    }
    let mut cfg = Configuration::from_spins(4, 3, vec![1; 12]).unwrap();
    cfg.flip(6);
    assert_eq!(hamiltonian(&cfg), -32);
}

#[test]
fn magnetisation_is_the_spin_sum() {
    let cfg = Configuration::from_spins(4, 3, pattern()).unwrap();
    assert_eq!(magnetisation(&cfg), 2);
    let mean = magnetisation(&cfg) as f64 / 12.0;
    assert!(-1.0 <= mean && mean <= 1.0);
    assert_eq!(mean, 2.0 / 12.0);
}

#[test]
fn degenerate_lattices() {
    let one = Configuration::from_spins(1, 1, vec![-1]).unwrap();
    assert_eq!(hamiltonian(&one), -4);
    assert_eq!(delta_e(&one, 0), 8);
    assert_eq!(magnetisation(&one), -1);
    let pair = Configuration::from_spins(1, 2, vec![1, -1]).unwrap();
    assert_eq!(hamiltonian(&pair), 0);
    assert_eq!(delta_e(&pair, 0), 0);
    assert_eq!(delta_e(&pair, 1), 0);
}
