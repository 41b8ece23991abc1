use ising::lattice::make_neighbour_list;

fn expected(lx: usize, ly: usize) -> Vec<usize> {
    let mut table = Vec::new();
    for i in 0..lx * ly {
        let x = i % lx;
        let y = i / lx;
        table.push(y * lx + (x + 1) % lx);
        table.push(y * lx + (x + lx - 1) % lx);
        table.push(((y + 1) % ly) * lx + x);
        table.push(((y + ly - 1) % ly) * lx + x);
    }
    table
}

#[test]
fn four_by_three_table() {
    let table = make_neighbour_list(4, 3);
    assert_eq!(table.len(), 48);
    assert_eq!(&table[0..4], &[1, 3, 4, 8]);
    assert_eq!(&table[12..16], &[0, 2, 7, 11]);
    assert_eq!(&table[20..24], &[6, 4, 9, 1]);
    assert_eq!(&table[44..48], &[8, 10, 3, 7]);
    assert_eq!(table, expected(4, 3));
}

#[test]
fn tables_match_the_periodic_formulas() {
    for lx in 1..6 {
        for ly in 1..6 {
            assert_eq!(make_neighbour_list(lx, ly), expected(lx, ly));
        }
    }
}

#[test]
fn neighbour_relation_is_symmetric() {
    for (lx, ly) in [(1, 1), (1, 2), (2, 1), (2, 2), (3, 5), (4, 3), (7, 2)] {
        let table = make_neighbour_list(lx, ly);
        for i in 0..lx * ly {
            assert_eq!(table[4 * table[4 * i] + 1], i);
            assert_eq!(table[4 * table[4 * i + 1]], i);
            assert_eq!(table[4 * table[4 * i + 2] + 3], i);
            assert_eq!(table[4 * table[4 * i + 3] + 2], i);
            for d in 0..4 {
                assert!(table[4 * i + d] < lx * ly);
            }
        }
    }
}

#[test]
fn two_site_lattices_wrap() {
    // One column, two rows: east and west wrap to the site itself, north
    // and south both lead to the other site.
    assert_eq!(make_neighbour_list(1, 2), vec![0, 0, 1, 1, 1, 1, 0, 0]);
    // Two columns, one row: the other way round.
    assert_eq!(make_neighbour_list(2, 1), vec![1, 1, 0, 0, 0, 0, 1, 1]);
}

#[test]
fn single_site_is_its_own_neighbour() {
    assert_eq!(make_neighbour_list(1, 1), vec![0, 0, 0, 0]);
}
