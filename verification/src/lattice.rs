//! Periodic nearest-neighbour topology of an `lx` by `ly` rectangular lattice.
//!
//! Sites are numbered row by row: the site in column `x` of row `y` has the
//! index `y * lx + x`. Each site has four neighbours, in the order east,
//! west, north, south, and every direction wraps around the lattice edge.

use vstd::prelude::*;
use vstd::arithmetic::div_mod::lemma_fundamental_div_mod_converse;
use vstd::arithmetic::div_mod::lemma_fundamental_div_mod;
use vstd::arithmetic::div_mod::lemma_mod_bound;

verus! {

/// The largest number of sites a lattice may have.
pub const MAX_SITES: usize = 0x1000_0000;

/// Index of the site in column `x` of row `y`.
pub open spec fn site(lx: int, x: int, y: int) -> int {
    y * lx + x
}

/// Column of site `i`.
pub open spec fn column(lx: int, i: int) -> int {
    i % lx
}

/// Row of site `i`.
pub open spec fn row(lx: int, i: int) -> int {
    i / lx
}

/// A lattice shape that the library accepts.
pub open spec fn valid_shape(lx: int, ly: int) -> bool {
    1 <= lx && 1 <= ly && lx * ly <= MAX_SITES
}

/// The site one column to the east of site `i`, around the edge.
pub open spec fn east(lx: int, ly: int, i: int) -> int {
    site(lx, (column(lx, i) + 1) % lx, row(lx, i))
}

/// The site one column to the west of site `i`, around the edge.
pub open spec fn west(lx: int, ly: int, i: int) -> int {
    site(lx, (column(lx, i) - 1) % lx, row(lx, i))
}

/// The site one row to the north of site `i`, around the edge.
pub open spec fn north(lx: int, ly: int, i: int) -> int {
    site(lx, column(lx, i), (row(lx, i) + 1) % ly)
}

/// The site one row to the south of site `i`, around the edge.
pub open spec fn south(lx: int, ly: int, i: int) -> int {
    site(lx, column(lx, i), (row(lx, i) - 1) % ly)
}

/// Neighbour of site `i` in direction `d`: 0 east, 1 west, 2 north, 3 south.
pub open spec fn neighbour(lx: int, ly: int, i: int, d: int) -> int {
    if d == 0 {
        east(lx, ly, i)
    } else if d == 1 {
        west(lx, ly, i)
    } else if d == 2 {
        north(lx, ly, i)
    } else {
        south(lx, ly, i)
    }
}

/// The direction that undoes `d`.
pub open spec fn opposite(d: int) -> int {
    if d == 0 {
        1
    } else if d == 1 {
        0
    } else if d == 2 {
        3
    } else {
        2
    }
}

/// `t` is the neighbour table of the `lx` by `ly` lattice: entry `4 * i + d`
/// is the neighbour of site `i` in direction `d`.
pub open spec fn is_neighbour_table(t: Seq<usize>, lx: int, ly: int) -> bool {
    &&& t.len() == 4 * (lx * ly)
    &&& forall|k: int| 0 <= k < t.len() ==> #[trigger] t[k] == neighbour(lx, ly, k / 4, k % 4)
}

/// Stepping forward or backward from `v` on a ring of `l` positions.
pub proof fn lemma_wrap(v: int, l: int)
    requires
        0 <= v < l,
    ensures
        (v + 1) % l == (if v == l - 1 { 0 } else { v + 1 }),
        (v - 1) % l == (if v == 0 { l - 1 } else { v - 1 }),
        0 <= (v + 1) % l < l,
        0 <= (v - 1) % l < l,
        ((v + 1) % l - 1) % l == v,
        ((v - 1) % l + 1) % l == v,
{
    if v == l - 1 {
        lemma_fundamental_div_mod_converse(v + 1, l, 1, 0);
    } else {
        lemma_fundamental_div_mod_converse(v + 1, l, 0, v + 1);
    }
    if v == 0 {
        lemma_fundamental_div_mod_converse(v - 1, l, -1, l - 1);
    } else {
        lemma_fundamental_div_mod_converse(v - 1, l, 0, v - 1);
    }
    lemma_fundamental_div_mod_converse(-1, l, -1, l - 1);
    lemma_fundamental_div_mod_converse(l, l, 1, 0);
    lemma_fundamental_div_mod_converse(v, l, 0, v);
}

/// The site in column `x` of row `y` lies on the lattice and decodes to `(x, y)`.
pub proof fn lemma_site_decode(lx: int, ly: int, x: int, y: int)
    requires
        0 <= x < lx,
        0 <= y < ly,
    ensures
        0 <= site(lx, x, y) < lx * ly,
        column(lx, site(lx, x, y)) == x,
        row(lx, site(lx, x, y)) == y,
{
    lemma_fundamental_div_mod_converse(site(lx, x, y), lx, y, x);
    assert(0 <= y * lx && (y + 1) * lx <= ly * lx) by (nonlinear_arith)
        requires
            0 <= y < ly,
            0 < lx,
    ;
    assert((y + 1) * lx == y * lx + lx) by (nonlinear_arith);
    assert(ly * lx == lx * ly) by (nonlinear_arith);
}

/// A site of the lattice has a column and a row on it, and is the site they name.
pub proof fn lemma_site_encode(lx: int, ly: int, i: int)
    requires
        1 <= lx,
        1 <= ly,
        0 <= i < lx * ly,
    ensures
        0 <= column(lx, i) < lx,
        0 <= row(lx, i) < ly,
        site(lx, column(lx, i), row(lx, i)) == i,
{
    lemma_fundamental_div_mod(i, lx);
    lemma_mod_bound(i, lx);
    let q = i / lx;
    let r = i % lx;
    assert(lx * q == q * lx) by (nonlinear_arith);
    assert(0 <= q < ly) by (nonlinear_arith)
        requires
            i == q * lx + r,
            0 <= r < lx,
            0 <= i < lx * ly,
            1 <= lx,
    ;
}

/// Every neighbour of a site of the lattice is a site of the lattice.
pub proof fn lemma_neighbour_in_range(lx: int, ly: int, i: int, d: int)
    requires
        1 <= lx,
        1 <= ly,
        0 <= i < lx * ly,
    ensures
        0 <= neighbour(lx, ly, i, d) < lx * ly,
{
    lemma_site_encode(lx, ly, i);
    let x = column(lx, i);
    let y = row(lx, i);
    lemma_wrap(x, lx);
    lemma_wrap(y, ly);
    lemma_site_decode(lx, ly, (x + 1) % lx, y);
    lemma_site_decode(lx, ly, (x - 1) % lx, y);
    lemma_site_decode(lx, ly, x, (y + 1) % ly);
    lemma_site_decode(lx, ly, x, (y - 1) % ly);
}

/// The neighbours of a site, read back as column and row, are the sites one
/// step away on the periodic lattice: east and west keep the row and move the
/// column by one, north and south keep the column and move the row by one.
pub proof fn lemma_neighbours_geometric(lx: int, ly: int, i: int)
    requires
        1 <= lx,
        1 <= ly,
        0 <= i < lx * ly,
    ensures
        column(lx, east(lx, ly, i)) == (column(lx, i) + 1) % lx,
        row(lx, east(lx, ly, i)) == row(lx, i),
        column(lx, west(lx, ly, i)) == (column(lx, i) - 1) % lx,
        row(lx, west(lx, ly, i)) == row(lx, i),
        column(lx, north(lx, ly, i)) == column(lx, i),
        row(lx, north(lx, ly, i)) == (row(lx, i) + 1) % ly,
        column(lx, south(lx, ly, i)) == column(lx, i),
        row(lx, south(lx, ly, i)) == (row(lx, i) - 1) % ly,
{
    lemma_site_encode(lx, ly, i);
    let x = column(lx, i);
    let y = row(lx, i);
    lemma_wrap(x, lx);
    lemma_wrap(y, ly);
    lemma_site_decode(lx, ly, (x + 1) % lx, y);
    lemma_site_decode(lx, ly, (x - 1) % lx, y);
    lemma_site_decode(lx, ly, x, (y + 1) % ly);
    lemma_site_decode(lx, ly, x, (y - 1) % ly);
}

/// The neighbour relation is symmetric: stepping in a direction and then in
/// the opposite one leads back to the site.
pub proof fn lemma_neighbour_symmetric(lx: int, ly: int, i: int, d: int)
    requires
        1 <= lx,
        1 <= ly,
        0 <= i < lx * ly,
        0 <= d < 4,
    ensures
        neighbour(lx, ly, neighbour(lx, ly, i, d), opposite(d)) == i,
{
    lemma_site_encode(lx, ly, i);
    lemma_neighbours_geometric(lx, ly, i);
    let x = column(lx, i);
    let y = row(lx, i);
    lemma_wrap(x, lx);
    lemma_wrap(y, ly);
}

/// In the neighbour table, the entry for the opposite direction at a
/// neighbour of a site is the site.
pub proof fn lemma_table_symmetric(t: Seq<usize>, lx: int, ly: int, i: int, d: int)
    requires
        1 <= lx,
        1 <= ly,
        is_neighbour_table(t, lx, ly),
        0 <= i < lx * ly,
        0 <= d < 4,
    ensures
        0 <= t[4 * i + d] < lx * ly,
        t[4 * t[4 * i + d] + opposite(d)] == i,
{
    lemma_neighbour_in_range(lx, ly, i, d);
    lemma_neighbour_symmetric(lx, ly, i, d);
    let j = neighbour(lx, ly, i, d);
    assert(t[4 * i + d] == neighbour(lx, ly, (4 * i + d) / 4, (4 * i + d) % 4));
    assert(t[4 * j + opposite(d)] == neighbour(
        lx,
        ly,
        (4 * j + opposite(d)) / 4,
        (4 * j + opposite(d)) % 4,
    ));
}

/// With at least two columns, the sites east and west of a site lie in
/// another column than the site, and so does whatever lies north of them.
pub proof fn lemma_columns_apart(lx: int, ly: int, i: int)
    requires
        2 <= lx,
        1 <= ly,
        0 <= i < lx * ly,
    ensures
        east(lx, ly, i) != i,
        west(lx, ly, i) != i,
        west(lx, ly, i) != south(lx, ly, i),
        north(lx, ly, west(lx, ly, i)) != i,
{
    lemma_site_encode(lx, ly, i);
    lemma_neighbours_geometric(lx, ly, i);
    lemma_wrap(column(lx, i), lx);
    lemma_neighbour_in_range(lx, ly, i, 1);
    lemma_neighbours_geometric(lx, ly, west(lx, ly, i));
}

/// With at least two rows, the sites north and south of a site lie in
/// another row than the site, and so does whatever lies east of them.
pub proof fn lemma_rows_apart(lx: int, ly: int, i: int)
    requires
        1 <= lx,
        2 <= ly,
        0 <= i < lx * ly,
    ensures
        north(lx, ly, i) != i,
        south(lx, ly, i) != i,
        east(lx, ly, south(lx, ly, i)) != i,
{
    lemma_site_encode(lx, ly, i);
    lemma_neighbours_geometric(lx, ly, i);
    lemma_wrap(row(lx, i), ly);
    lemma_neighbour_in_range(lx, ly, i, 3);
    lemma_neighbours_geometric(lx, ly, south(lx, ly, i));
}

/// With a single column, a site is its own neighbour to the east and west.
pub proof fn lemma_single_column(ly: int, i: int)
    requires
        1 <= ly,
        0 <= i < ly,
    ensures
        east(1, ly, i) == i,
        west(1, ly, i) == i,
{
    lemma_site_encode(1, ly, i);
    lemma_wrap(0, 1);
}

/// With a single row, a site is its own neighbour to the north and south.
pub proof fn lemma_single_row(lx: int, i: int)
    requires
        1 <= lx,
        0 <= i < lx,
    ensures
        north(lx, 1, i) == i,
        south(lx, 1, i) == i,
{
    lemma_site_encode(lx, 1, i);
    lemma_wrap(0, 1);
    assert(0 * lx == 0) by (nonlinear_arith);
}

/// Builds the neighbour table of the `lx` by `ly` periodic lattice.
pub fn make_neighbour_list(lx: usize, ly: usize) -> (indices: Vec<usize>)
    requires
        valid_shape(lx as int, ly as int),
    ensures
        is_neighbour_table(indices@, lx as int, ly as int),
        forall|k: int| 0 <= k < indices@.len() ==> #[trigger] indices@[k] < lx * ly,
{
    let mut indices: Vec<usize> = Vec::new();
    assert(0 * lx == 0 && lx * ly == ly * lx) by (nonlinear_arith);
    for y in 0..ly
        invariant
            valid_shape(lx as int, ly as int),
            indices@.len() == 4 * (y * lx),
            forall|k: int|
                0 <= k < indices@.len() ==> #[trigger] indices@[k] == neighbour(
                    lx as int,
                    ly as int,
                    k / 4,
                    k % 4,
                ),
            forall|k: int| 0 <= k < indices@.len() ==> #[trigger] indices@[k] < lx * ly,
    {
        for x in 0..lx
            invariant
                valid_shape(lx as int, ly as int),
                y < ly,
                indices@.len() == 4 * (y * lx + x),
                forall|k: int|
                    0 <= k < indices@.len() ==> #[trigger] indices@[k] == neighbour(
                        lx as int,
                        ly as int,
                        k / 4,
                        k % 4,
                    ),
                forall|k: int| 0 <= k < indices@.len() ==> #[trigger] indices@[k] < lx * ly,
        {
            proof {
                lemma_site_decode(lx as int, ly as int, x as int, y as int);
                lemma_wrap(x as int, lx as int);
                lemma_wrap(y as int, ly as int);
                lemma_site_decode(lx as int, ly as int, (x + 1) % (lx as int), y as int);
                lemma_site_decode(lx as int, ly as int, (x - 1) % (lx as int), y as int);
                lemma_site_decode(lx as int, ly as int, x as int, (y + 1) % (ly as int));
                lemma_site_decode(lx as int, ly as int, x as int, (y - 1) % (ly as int));
                assert(0 * lx == 0 && 0 <= y * lx && (y + 1) * lx <= ly * lx && (ly - 1) * lx + lx == lx * ly
                    && (y + 1) * lx == y * lx + lx && (y - 1) * lx == y * lx - lx && ly * lx == lx
                    * ly) by (nonlinear_arith)
                    requires
                        0 <= y < ly,
                        0 < lx,
                ;
            }
            let base: usize = y * lx;
            let to_east: usize = if x == lx - 1 {
                base
            } else {
                base + x + 1
            };
            let to_west: usize = if x == 0 {
                base + lx - 1
            } else {
                base + x - 1
            };
            let to_north: usize = if y == ly - 1 {
                x
            } else {
                (y + 1) * lx + x
            };
            let to_south: usize = if y == 0 {
                (ly - 1) * lx + x
            } else {
                (y - 1) * lx + x
            };
            let ghost before = indices@;
            let ghost i = site(lx as int, x as int, y as int);
            assert(to_east == east(lx as int, ly as int, i));
            assert(to_west == west(lx as int, ly as int, i));
            assert(to_north == north(lx as int, ly as int, i));
            assert(to_south == south(lx as int, ly as int, i));
            assert(to_east < lx * ly && to_west < lx * ly && to_north < lx * ly && to_south < lx * ly);
            indices.push(to_east);
            indices.push(to_west);
            indices.push(to_north);
            indices.push(to_south);
            proof {
                assert(before.len() == 4 * i);
                assert forall|k: int| 0 <= k < indices@.len() implies #[trigger] indices@[k]
                    == neighbour(lx as int, ly as int, k / 4, k % 4) && indices@[k] < lx * ly by {
                    if k < before.len() {
                        assert(indices@[k] == before[k]);
                    } else {
                        assert(k / 4 == i);
                        assert(k == 4 * i + k % 4);
                    }
                }
            }
        }
        assert((y + 1) * lx == y * lx + lx) by (nonlinear_arith);
    }
    indices
}

} // verus!
