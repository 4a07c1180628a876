//! The geometry and the energy of an `l x l` lattice of spins, as mathematics.
//!
//! Sites are numbered row by row: site `idx` lies in row `idx / l` and column
//! `idx % l`. Each site has four neighbours, stored in the order
//! top, right, bottom, left.

use crate::ising_model::BoundaryCondition;
use vstd::arithmetic::div_mod::lemma_fundamental_div_mod;
use vstd::arithmetic::div_mod::lemma_fundamental_div_mod_converse;
use vstd::prelude::*;

verus! {

/// The lattice is small enough that every energy, `2 * l * l` at most in size,
/// fits in an `i32`.
pub open spec fn side_fits(l: int) -> bool {
    0 <= l && l * l <= 0x3fff_ffff
}

/// The bounds that a side which fits gives.
pub proof fn lemma_side_fits(l: int)
    requires
        side_fits(l),
    ensures
        l <= l * l,
        2 * (l * l) <= i32::MAX,
        l > 0 ==> l * l >= l,
        l > 1 ==> l * l >= 2 * l,
        l > 2 ==> l * l >= 3 * l,
        l <= 0x8000,
{
    assert(l <= 0x8000) by (nonlinear_arith)
        requires
            0 <= l,
            l * l <= 0x3fff_ffff,
    ;
    assert(l <= l * l) by (nonlinear_arith)
        requires
            0 <= l,
    ;
    assert(l > 1 ==> l * l >= 2 * l) by (nonlinear_arith)
        requires
            0 <= l,
    ;
    assert(l > 2 ==> l * l >= 3 * l) by (nonlinear_arith)
        requires
            0 <= l,
    ;
}

/// Every entry is a spin: `+1` or `-1`.
pub open spec fn spins_valid(lat: Seq<i32>) -> bool {
    forall|i: int| 0 <= i < lat.len() ==> (lat[i] == 1 || lat[i] == -1)
}

/// The sum of the entries: of all spins, or of all demon energies.
pub open spec fn seq_sum(lat: Seq<i32>) -> int
    decreases lat.len(),
{
    if lat.len() == 0 {
        0
    } else {
        seq_sum(lat.drop_last()) + lat.last()
    }
}

/// The site above `idx`; the top row wraps around to the bottom row.
pub open spec fn top_of(l: int, idx: int) -> int {
    if idx < l {
        idx + l * l - l
    } else {
        idx - l
    }
}

/// The site below `idx`; the bottom row wraps around to the top row.
pub open spec fn bottom_of(l: int, idx: int) -> int {
    if idx + l < l * l {
        idx + l
    } else {
        idx + l - l * l
    }
}

/// The row that the shifted boundary joins row `i` to.
pub open spec fn shifted_row(l: int, i: int) -> int {
    (i + l - l / 4) % l
}

/// The right neighbour of the site in row `i`, column `j`.
pub open spec fn right_ij(l: int, bc: BoundaryCondition, i: int, j: int) -> int {
    if j == l - 1 {
        match bc {
            BoundaryCondition::Periodic => i * l,
            BoundaryCondition::Shifted => shifted_row(l, i) * l + j,
        }
    } else {
        i * l + j + 1
    }
}

/// The left neighbour of the site in row `i`, column `j`.
pub open spec fn left_ij(l: int, bc: BoundaryCondition, i: int, j: int) -> int {
    if j == 0 {
        match bc {
            BoundaryCondition::Periodic => (i + 1) * l - 1,
            BoundaryCondition::Shifted => shifted_row(l, i) * l + j,
        }
    } else {
        i * l + j - 1
    }
}

/// The right neighbour of site `idx`.
pub open spec fn right_of(l: int, bc: BoundaryCondition, idx: int) -> int {
    right_ij(l, bc, idx / l, idx % l)
}

/// The left neighbour of site `idx`.
pub open spec fn left_of(l: int, bc: BoundaryCondition, idx: int) -> int {
    left_ij(l, bc, idx / l, idx % l)
}

/// `nb` is the neighbour table of an `l x l` lattice with boundary `bc`.
pub open spec fn neighbor_table(l: int, bc: BoundaryCondition, nb: Seq<[usize; 4]>) -> bool {
    &&& nb.len() == l * l
    &&& forall|idx: int|
        #![trigger nb[idx]]
        0 <= idx < l * l ==> {
            &&& nb[idx][0] == top_of(l, idx)
            &&& nb[idx][1] == right_of(l, bc, idx)
            &&& nb[idx][2] == bottom_of(l, idx)
            &&& nb[idx][3] == left_of(l, bc, idx)
        }
}

/// What every neighbour table of an `l x l` lattice has in common, whatever its
/// boundary: vertical neighbours wrap around, horizontal neighbours inside a
/// row are the adjacent sites, and every entry is a site.
pub open spec fn grid_neighbors(l: int, nb: Seq<[usize; 4]>) -> bool {
    &&& nb.len() == l * l
    &&& forall|idx: int|
        #![trigger nb[idx]]
        0 <= idx < l * l ==> {
            &&& nb[idx][0] == top_of(l, idx)
            &&& nb[idx][2] == bottom_of(l, idx)
            &&& (idx % l != l - 1 ==> nb[idx][1] == idx + 1)
            &&& (idx % l != 0 ==> nb[idx][3] == idx - 1)
            &&& nb[idx][0] < l * l
            &&& nb[idx][1] < l * l
            &&& nb[idx][2] < l * l
            &&& nb[idx][3] < l * l
        }
}

/// The energy of the right and bottom bonds of site `idx` (coupling 1).
pub open spec fn bond_energy(lat: Seq<i32>, nb: Seq<[usize; 4]>, idx: int) -> int {
    -(lat[idx] * (lat[nb[idx][1] as int] + lat[nb[idx][2] as int]))
}

/// The energy of the bonds of sites `0 .. n`.
pub open spec fn energy_prefix(lat: Seq<i32>, nb: Seq<[usize; 4]>, n: int) -> int
    decreases n,
{
    if n <= 0 {
        0
    } else {
        energy_prefix(lat, nb, n - 1) + bond_energy(lat, nb, n - 1)
    }
}

/// The energy of the lattice: every site's right and bottom bond, each counted
/// once, with coupling 1 (aligned neighbours lower the energy).
pub open spec fn lattice_energy(lat: Seq<i32>, nb: Seq<[usize; 4]>) -> int {
    energy_prefix(lat, nb, lat.len() as int)
}

/// The sum of the four neighbours' spins of site `idx`.
pub open spec fn neighbor_sum(lat: Seq<i32>, nb: Seq<[usize; 4]>, idx: int) -> int {
    lat[nb[idx][0] as int] + lat[nb[idx][1] as int] + lat[nb[idx][2] as int] + lat[nb[idx][3] as int]
}

/// The energy change that flipping site `idx` is taken to cost.
pub open spec fn flip_delta(lat: Seq<i32>, nb: Seq<[usize; 4]>, idx: int) -> int {
    2 * (lat[idx] * neighbor_sum(lat, nb, idx))
}

/// The energy change that exchanging the opposite spins of neighbouring sites
/// `a` and `b` is taken to cost.
pub open spec fn exchange_delta(lat: Seq<i32>, nb: Seq<[usize; 4]>, a: int, b: int) -> int {
    flip_delta(lat, nb, a) + flip_delta(lat, nb, b) + 4
}

/// The lattice with site `idx` flipped.
pub open spec fn flipped(lat: Seq<i32>, idx: int) -> Seq<i32> {
    lat.update(idx, (-lat[idx]) as i32)
}

/// Changing one entry changes the sum by the difference.
pub proof fn lemma_seq_sum_update(lat: Seq<i32>, idx: int, v: i32)
    requires
        0 <= idx < lat.len(),
    ensures
        seq_sum(lat.update(idx, v)) == seq_sum(lat) - lat[idx] + v,
    decreases lat.len(),
{
    let s = lat.update(idx, v);
    if idx == lat.len() - 1 {
        assert(s.drop_last() =~= lat.drop_last());
    } else {
        lemma_seq_sum_update(lat.drop_last(), idx, v);
        assert(s.drop_last() =~= lat.drop_last().update(idx, v));
    }
}

/// The sum of `n` spins lies in `-n ..= n`.
pub proof fn lemma_seq_sum_bounds(lat: Seq<i32>)
    requires
        spins_valid(lat),
    ensures
        -lat.len() <= seq_sum(lat) <= lat.len(),
    decreases lat.len(),
{
    if lat.len() > 0 {
        lemma_seq_sum_bounds(lat.drop_last());
    }
}

/// The bonds of the first `n` sites add up to at most `2 * n` either way.
pub proof fn lemma_energy_prefix_bounds(l: int, lat: Seq<i32>, nb: Seq<[usize; 4]>, n: int)
    requires
        spins_valid(lat),
        0 <= n <= lat.len(),
        lat.len() == l * l,
        grid_neighbors(l, nb),
    ensures
        -2 * n <= energy_prefix(lat, nb, n) <= 2 * n,
    decreases n,
{
    if n > 0 {
        lemma_energy_prefix_bounds(l, lat, nb, n - 1);
        let p = n - 1;
        assert(nb[p][1] < lat.len());
        assert(nb[p][2] < lat.len());
        let a = lat[nb[p][1] as int];
        let b = lat[nb[p][2] as int];
        assert(a == 1 || a == -1);
        assert(b == 1 || b == -1);
        if lat[p] == 1 {
            assert(bond_energy(lat, nb, p) == -(a + b));
        } else {
            assert(bond_energy(lat, nb, p) == a + b);
        }
    }
}

/// A flip delta is one of -8, -4, 0, 4, 8.
pub proof fn lemma_flip_delta_bounds(l: int, lat: Seq<i32>, nb: Seq<[usize; 4]>, a: int)
    requires
        lat.len() == l * l,
        spins_valid(lat),
        grid_neighbors(l, nb),
        0 <= a < l * l,
    ensures
        -8 <= flip_delta(lat, nb, a) <= 8,
        flip_delta(lat, nb, a) % 4 == 0,
{
    assert(nb[a][0] < l * l && nb[a][1] < l * l && nb[a][2] < l * l && nb[a][3] < l * l);
    let t = lat[nb[a][0] as int];
    let r = lat[nb[a][1] as int];
    let d = lat[nb[a][2] as int];
    let f = lat[nb[a][3] as int];
    assert(t == 1 || t == -1);
    assert(r == 1 || r == -1);
    assert(d == 1 || d == -1);
    assert(f == 1 || f == -1);
    let sa = lat[a];
    let ns = neighbor_sum(lat, nb, a);
    assert(ns == t + r + d + f);
    if sa == 1 {
        assert(sa * ns == ns) by (nonlinear_arith)
            requires
                sa == 1,
        ;
    } else {
        assert(sa * ns == -ns) by (nonlinear_arith)
            requires
                sa == -1,
        ;
    }
}

/// Row `i`, column `j` is site `i * l + j`, and back.
pub proof fn lemma_site_row_col(l: int, i: int, j: int)
    requires
        0 < l,
        0 <= j < l,
    ensures
        (i * l + j) / l == i,
        (i * l + j) % l == j,
{
    lemma_fundamental_div_mod_converse(i * l + j, l, i, j);
}

/// A site lies in a row and a column of the lattice.
pub proof fn lemma_site_split(l: int, idx: int)
    requires
        0 < l,
        0 <= idx < l * l,
    ensures
        idx == (idx / l) * l + idx % l,
        0 <= idx / l < l,
        0 <= idx % l < l,
{
    lemma_fundamental_div_mod(idx, l);
    let i = idx / l;
    let j = idx % l;
    assert(i * l == l * i) by (nonlinear_arith);
    if i >= l {
        assert(i * l >= l * l) by (nonlinear_arith)
            requires
                i >= l,
                l > 0,
        ;
    }
    if i < 0 {
        assert(i * l <= -l) by (nonlinear_arith)
            requires
                i < 0,
                l > 0,
        ;
    }
}

/// Site `b` is one of the four neighbours of site `a`.
pub open spec fn is_neighbor(nb: Seq<[usize; 4]>, a: int, b: int) -> bool {
    b == nb[a][0] || b == nb[a][1] || b == nb[a][2] || b == nb[a][3]
}

/// A site with a neighbour of the opposite spin costs at most 4 to flip.
pub proof fn lemma_flip_delta_with_opposite_neighbor(l: int, lat: Seq<i32>, nb: Seq<[usize; 4]>, a: int, s: int)
    requires
        lat.len() == l * l,
        spins_valid(lat),
        grid_neighbors(l, nb),
        0 <= a < l * l,
        0 <= s < 4,
        lat[nb[a][s] as int] != lat[a],
    ensures
        -8 <= flip_delta(lat, nb, a) <= 4,
{
    assert(nb[a][0] < l * l && nb[a][1] < l * l && nb[a][2] < l * l && nb[a][3] < l * l);
    let t = lat[nb[a][0] as int];
    let r = lat[nb[a][1] as int];
    let d = lat[nb[a][2] as int];
    let f = lat[nb[a][3] as int];
    assert(t == 1 || t == -1);
    assert(r == 1 || r == -1);
    assert(d == 1 || d == -1);
    assert(f == 1 || f == -1);
    let sa = lat[a];
    let ns = neighbor_sum(lat, nb, a);
    assert(ns == t + r + d + f);
    if sa == 1 {
        assert(sa * ns == ns) by (nonlinear_arith)
            requires
                sa == 1,
        ;
    } else {
        assert(sa * ns == -ns) by (nonlinear_arith)
            requires
                sa == -1,
        ;
    }
}

} // verus!
