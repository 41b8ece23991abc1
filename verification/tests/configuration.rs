use ising::configuration::Configuration;
use ising::lattice::make_neighbour_list;
use ising::rng::Rng;

#[test]
fn random_configuration_holds_spins() {
    let mut rng = Rng::from_seed([138; 32]);
    let cfg = Configuration::random(&mut rng, 4, 3);
    assert_eq!(cfg.lx, 4);
    assert_eq!(cfg.ly, 3);
    assert_eq!(cfg.cfg.len(), 12);
    assert_eq!(cfg.len(), 12);
    assert!(cfg.cfg.iter().all(|s| *s == 1 || *s == -1));
    assert_eq!(cfg.neighbours, make_neighbour_list(4, 3));
}

#[test]
fn random_configuration_is_fixed_by_the_seed() {
    let mut a = Rng::from_seed([7; 32]);
    let mut b = Rng::from_seed([7; 32]);
    assert_eq!(Configuration::random(&mut a, 5, 6).cfg, Configuration::random(&mut b, 5, 6).cfg);
}

#[test]
fn from_spins_checks_its_input() {
    assert!(Configuration::from_spins(2, 2, vec![1, -1, 1, 1]).is_some());
    assert!(Configuration::from_spins(2, 2, vec![1, -1, 1]).is_none());
    assert!(Configuration::from_spins(2, 2, vec![1, -1, 1, 1, 1]).is_none());
    assert!(Configuration::from_spins(2, 2, vec![1, 0, 1, 1]).is_none());
    assert!(Configuration::from_spins(2, 2, vec![1, 1, 1, 2]).is_none());
}

#[test]
fn index_reads_and_index_mut_writes() {
    let mut cfg = Configuration::from_spins(2, 2, vec![1, -1, 1, 1]).unwrap();
    assert_eq!(*cfg.index(0), 1);
    assert_eq!(*cfg.index(1), -1);
    *cfg.index_mut(1) = 1;
    assert_eq!(cfg.cfg, vec![1, 1, 1, 1]);
    *cfg.index_mut(3) *= -1;
    assert_eq!(*cfg.index(3), -1);
}

#[test]
fn flip_changes_one_sign() {
    let mut cfg = Configuration::from_spins(2, 2, vec![1, -1, 1, 1]).unwrap();
    cfg.flip(1);
    assert_eq!(cfg.cfg, vec![1, 1, 1, 1]);
    cfg.flip(2);
    assert_eq!(cfg.cfg, vec![1, 1, -1, 1]);
    assert_eq!(cfg.neighbours, make_neighbour_list(2, 2));
}
