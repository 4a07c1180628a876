//! What a flip and an exchange of spins do to the energy of the lattice.

use crate::ising_model::BoundaryCondition;
use crate::lattice::{
    bond_energy, bottom_of, energy_prefix, exchange_delta, flip_delta, flipped, grid_neighbors,
    is_neighbor, lattice_energy, left_of, lemma_flip_delta_with_opposite_neighbor, lemma_side_fits,
    lemma_site_row_col, lemma_site_split, neighbor_sum, neighbor_table, right_of, side_fits,
    spins_valid, top_of,
};
use vstd::prelude::*;

verus! {

/// On a periodic lattice the right neighbour is the next site of the row, the
/// last column wrapping to the first.
proof fn lemma_periodic_right(l: int, p: int)
    requires
        side_fits(l),
        0 < l,
        0 <= p < l * l,
    ensures
        right_of(l, BoundaryCondition::Periodic, p) == if p % l == l - 1 {
            p - (l - 1)
        } else {
            p + 1
        },
        0 <= right_of(l, BoundaryCondition::Periodic, p) < l * l,
{
    lemma_site_split(l, p);
    let i = p / l;
    let j = p % l;
    assert((i + 1) * l <= l * l) by (nonlinear_arith)
        requires
            0 <= i < l,
            l > 0,
    ;
    assert((i + 1) * l == i * l + l) by (nonlinear_arith);
    assert(i * l >= 0) by (nonlinear_arith)
        requires
            i >= 0,
            l > 0,
    ;
}

/// On a periodic lattice the left neighbour is the previous site of the row,
/// the first column wrapping to the last.
proof fn lemma_periodic_left(l: int, q: int)
    requires
        side_fits(l),
        0 < l,
        0 <= q < l * l,
    ensures
        left_of(l, BoundaryCondition::Periodic, q) == if q % l == 0 {
            q + l - 1
        } else {
            q - 1
        },
        0 <= left_of(l, BoundaryCondition::Periodic, q) < l * l,
{
    lemma_site_split(l, q);
    let i = q / l;
    assert((i + 1) * l <= l * l) by (nonlinear_arith)
        requires
            0 <= i < l,
            l > 0,
    ;
    assert((i + 1) * l == i * l + l) by (nonlinear_arith);
    assert(i * l >= 0) by (nonlinear_arith)
        requires
            i >= 0,
            l > 0,
    ;
}

/// The column of the right neighbour on a periodic lattice.
proof fn lemma_periodic_right_column(l: int, p: int)
    requires
        side_fits(l),
        0 < l,
        0 <= p < l * l,
    ensures
        right_of(l, BoundaryCondition::Periodic, p) % l == if p % l == l - 1 {
            0
        } else {
            p % l + 1
        },
{
    lemma_periodic_right(l, p);
    lemma_site_split(l, p);
    let i = p / l;
    let j = p % l;
    if j == l - 1 {
        lemma_site_row_col(l, i, 0);
    } else {
        lemma_site_row_col(l, i, j + 1);
    }
}

/// Right and left are inverse to each other on a periodic lattice.
proof fn lemma_periodic_right_left_inverse(l: int, p: int)
    requires
        side_fits(l),
        0 < l,
        0 <= p < l * l,
    ensures
        left_of(l, BoundaryCondition::Periodic, right_of(l, BoundaryCondition::Periodic, p)) == p,
        right_of(l, BoundaryCondition::Periodic, left_of(l, BoundaryCondition::Periodic, p)) == p,
{
    let pb = BoundaryCondition::Periodic;
    lemma_site_split(l, p);
    let i = p / l;
    let j = p % l;
    lemma_periodic_right(l, p);
    lemma_periodic_right_column(l, p);
    lemma_periodic_left(l, right_of(l, pb, p));
    lemma_periodic_left(l, p);
    let q = left_of(l, pb, p);
    lemma_periodic_right(l, q);
    if j == 0 {
        lemma_site_row_col(l, i, l - 1);
    } else {
        lemma_site_row_col(l, i, j - 1);
    }
}

/// Top and bottom are inverse to each other.
proof fn lemma_top_bottom_inverse(l: int, p: int)
    requires
        side_fits(l),
        0 < l,
        0 <= p < l * l,
    ensures
        top_of(l, bottom_of(l, p)) == p,
        bottom_of(l, top_of(l, p)) == p,
        0 <= top_of(l, p) < l * l,
        0 <= bottom_of(l, p) < l * l,
{
    lemma_side_fits(l);
}

/// The sites that flipping site `k` can touch: `k`, its left and its top
/// neighbour are three different sites, and `k` is neither its own right nor
/// its own bottom neighbour.
proof fn lemma_periodic_distinct(l: int, k: int)
    requires
        side_fits(l),
        l >= 2,
        0 <= k < l * l,
    ensures
        left_of(l, BoundaryCondition::Periodic, k) != k,
        top_of(l, k) != k,
        left_of(l, BoundaryCondition::Periodic, k) != top_of(l, k),
        right_of(l, BoundaryCondition::Periodic, k) != k,
        bottom_of(l, k) != k,
{
    lemma_side_fits(l);
    lemma_periodic_left(l, k);
    lemma_periodic_right(l, k);
}

/// The energy of the bonds of sites `0 .. n` of the flipped lattice differs
/// from the unflipped one only by the bonds of `k`, its left and its top
/// neighbour.
proof fn lemma_prefix_difference(l: int, lat: Seq<i32>, nb: Seq<[usize; 4]>, k: int, n: int)
    requires
        side_fits(l),
        l >= 2,
        lat.len() == l * l,
        neighbor_table(l, BoundaryCondition::Periodic, nb),
        0 <= k < l * l,
        0 <= n <= l * l,
    ensures
        ({
            let lat2 = flipped(lat, k);
            let lk = left_of(l, BoundaryCondition::Periodic, k);
            let tk = top_of(l, k);
            let dk = bond_energy(lat2, nb, k) - bond_energy(lat, nb, k);
            let dl = bond_energy(lat2, nb, lk) - bond_energy(lat, nb, lk);
            let dt = bond_energy(lat2, nb, tk) - bond_energy(lat, nb, tk);
            energy_prefix(lat2, nb, n) - energy_prefix(lat, nb, n) == (if k < n {
                dk
            } else {
                0
            }) + (if lk < n {
                dl
            } else {
                0
            }) + (if tk < n {
                dt
            } else {
                0
            })
        }),
    decreases n,
{
    let pb = BoundaryCondition::Periodic;
    lemma_periodic_left(l, k);
    lemma_top_bottom_inverse(l, k);
    if n > 0 {
        lemma_prefix_difference(l, lat, nb, k, n - 1);
        let p = n - 1;
        let lat2 = flipped(lat, k);
        let lk = left_of(l, pb, k);
        let tk = top_of(l, k);
        lemma_periodic_distinct(l, k);
        if p != k && p != lk && p != tk {
            lemma_periodic_right_left_inverse(l, p);
            lemma_periodic_right(l, p);
            lemma_top_bottom_inverse(l, p);
            assert(nb[p][1] == right_of(l, pb, p));
            assert(nb[p][2] == bottom_of(l, p));
            assert(right_of(l, pb, p) != k);
            assert(bottom_of(l, p) != k);
            assert(bond_energy(lat2, nb, p) == bond_energy(lat, nb, p));
        }
    }
}

/// Law: on a periodic lattice of side at least 2, flipping site `k` changes
/// the energy of the lattice by exactly the flip delta of `k`, so a model whose
/// stored energy was right stays right after `flip(k, flip_energy_delta(k))`.
pub proof fn lemma_flip_changes_energy_by_delta(l: int, lat: Seq<i32>, nb: Seq<[usize; 4]>, k: int)
    requires
        side_fits(l),
        l >= 2,
        lat.len() == l * l,
        spins_valid(lat),
        neighbor_table(l, BoundaryCondition::Periodic, nb),
        0 <= k < l * l,
    ensures
        lattice_energy(flipped(lat, k), nb) == lattice_energy(lat, nb) + flip_delta(lat, nb, k),
{
    let pb = BoundaryCondition::Periodic;
    let lat2 = flipped(lat, k);
    let lk = left_of(l, pb, k);
    let tk = top_of(l, k);
    let rk = right_of(l, pb, k);
    let bk = bottom_of(l, k);
    lemma_prefix_difference(l, lat, nb, k, l * l);
    lemma_periodic_distinct(l, k);
    lemma_periodic_right(l, k);
    lemma_periodic_left(l, k);
    lemma_top_bottom_inverse(l, k);
    lemma_periodic_right_left_inverse(l, k);
    lemma_periodic_right_left_inverse(l, tk);
    lemma_periodic_right(l, lk);
    lemma_periodic_right(l, tk);
    lemma_top_bottom_inverse(l, lk);
    lemma_top_bottom_inverse(l, tk);
    // The bottom neighbour of `lk` and the right neighbour of `tk` are not `k`:
    // otherwise `lk` and `tk` would coincide.
    assert(bottom_of(l, lk) != k);
    assert(right_of(l, pb, tk) != k);
    assert(nb[k][1] == rk && nb[k][2] == bk && nb[k][0] == tk && nb[k][3] == lk);
    assert(nb[lk][1] == k);
    assert(nb[tk][2] == k);
    let sk = lat[k];
    let sr = lat[rk];
    let sb = lat[bk];
    let sl = lat[lk];
    let st = lat[tk];
    let slb = lat[bottom_of(l, lk)];
    let str = lat[right_of(l, pb, tk)];
    assert(bond_energy(lat, nb, k) == -(sk * (sr + sb)));
    assert(bond_energy(lat2, nb, k) == -((-sk) * (sr + sb)));
    assert(bond_energy(lat, nb, lk) == -(sl * (sk + slb)));
    assert(bond_energy(lat2, nb, lk) == -(sl * (-sk + slb)));
    assert(bond_energy(lat, nb, tk) == -(st * (str + sk)));
    assert(bond_energy(lat2, nb, tk) == -(st * (str + -sk)));
    assert(neighbor_sum(lat, nb, k) == st + sr + sb + sl);
    assert(-((-sk) * (sr + sb)) + sk * (sr + sb) + (-(sl * (-sk + slb))) + sl * (sk + slb) + (-(st
        * (str + -sk))) + st * (str + sk) == 2 * (sk * (st + sr + sb + sl))) by (nonlinear_arith);
}

/// Exchanging neighbouring spins: the neighbour sum of the second site, after
/// the first has flipped, has lost twice the first site's spin, for the first
/// site is exactly one of its four neighbours.
proof fn lemma_second_flip_delta(l: int, lat: Seq<i32>, nb: Seq<[usize; 4]>, a: int, b: int)
    requires
        side_fits(l),
        l >= 3,
        lat.len() == l * l,
        spins_valid(lat),
        neighbor_table(l, BoundaryCondition::Periodic, nb),
        0 <= a < l * l,
        b == nb[a][1] || b == nb[a][2],
        lat[a] != lat[b],
    ensures
        0 <= b < l * l,
        a != b,
        flip_delta(flipped(lat, a), nb, b) == flip_delta(lat, nb, b) + 4,
{
    let pb = BoundaryCondition::Periodic;
    lemma_side_fits(l);
    lemma_periodic_right(l, a);
    lemma_top_bottom_inverse(l, a);
    assert(nb[a][1] == right_of(l, pb, a) && nb[a][2] == bottom_of(l, a));
    lemma_periodic_right(l, b);
    lemma_periodic_left(l, b);
    lemma_top_bottom_inverse(l, b);
    lemma_periodic_right_left_inverse(l, a);
    lemma_periodic_right_column(l, a);
    assert(nb[b][0] == top_of(l, b) && nb[b][1] == right_of(l, pb, b) && nb[b][2] == bottom_of(
        l,
        b,
    ) && nb[b][3] == left_of(l, pb, b));
    let lat1 = flipped(lat, a);
    let t = nb[b][0] as int;
    let r = nb[b][1] as int;
    let d = nb[b][2] as int;
    let f = nb[b][3] as int;
    if b == right_of(l, pb, a) {
        assert(f == a);
        assert(t != a && r != a && d != a);
        assert(neighbor_sum(lat1, nb, b) == neighbor_sum(lat, nb, b) - 2 * lat[a]);
    } else {
        assert(t == a);
        assert(r != a && d != a && f != a);
        assert(neighbor_sum(lat1, nb, b) == neighbor_sum(lat, nb, b) - 2 * lat[a]);
    }
    let sa = lat[a];
    let sb = lat[b];
    let ns = neighbor_sum(lat, nb, b);
    assert(2 * (sb * (ns - 2 * sa)) == 2 * (sb * ns) + 4) by (nonlinear_arith)
        requires
            sa == -sb,
            sb == 1 || sb == -1,
    ;
}

/// Law: on a periodic lattice of side at least 3, exchanging the opposite
/// spins of a site and its right or bottom neighbour changes the energy of the
/// lattice by exactly the exchange delta (both flip deltas plus 4), so a model
/// whose stored energy was right stays right after
/// `swap(a, b, swap_energy_delta(a, b))`.
pub proof fn lemma_swap_changes_energy_by_delta(
    l: int,
    lat: Seq<i32>,
    nb: Seq<[usize; 4]>,
    a: int,
    b: int,
)
    requires
        side_fits(l),
        l >= 3,
        lat.len() == l * l,
        spins_valid(lat),
        neighbor_table(l, BoundaryCondition::Periodic, nb),
        0 <= a < l * l,
        b == nb[a][1] || b == nb[a][2],
        lat[a] != lat[b],
    ensures
        lattice_energy(flipped(flipped(lat, a), b), nb) == lattice_energy(lat, nb) + flip_delta(
            lat,
            nb,
            a,
        ) + flip_delta(lat, nb, b) + 4,
{
    lemma_second_flip_delta(l, lat, nb, a, b);
    lemma_flip_changes_energy_by_delta(l, lat, nb, a);
    let lat1 = flipped(lat, a);
    assert(spins_valid(lat1));
    lemma_flip_changes_energy_by_delta(l, lat1, nb, b);
}

/// Law: flipping a site twice gives the lattice back, and, when the site is
/// not its own neighbour, the second flip's delta is the first one's negated,
/// so `flip(k, flip_energy_delta(k))` done twice restores the stored energy.
pub proof fn lemma_flip_reverses(lat: Seq<i32>, nb: Seq<[usize; 4]>, k: int)
    requires
        spins_valid(lat),
        0 <= k < lat.len(),
        0 <= k < nb.len(),
        forall|s: int| 0 <= s < 4 ==> #[trigger] nb[k][s] != k && nb[k][s] < lat.len(),
    ensures
        flipped(flipped(lat, k), k) == lat,
        flip_delta(flipped(lat, k), nb, k) == -flip_delta(lat, nb, k),
{
    assert(flipped(flipped(lat, k), k) =~= lat);
    assert(nb[k][0] != k && nb[k][1] != k && nb[k][2] != k && nb[k][3] != k);
    let lat1 = flipped(lat, k);
    assert(neighbor_sum(lat1, nb, k) == neighbor_sum(lat, nb, k));
    let sk = lat[k];
    let ns = neighbor_sum(lat, nb, k);
    assert(2 * ((-sk) * ns) == -(2 * (sk * ns))) by (nonlinear_arith);
}

/// The lattice with every spin flipped.
pub open spec fn negated(lat: Seq<i32>) -> Seq<i32> {
    Seq::new(lat.len(), |i: int| (-lat[i]) as i32)
}

/// The bonds of the first `n` sites keep their energy when every spin flips.
proof fn lemma_prefix_of_negated(l: int, lat: Seq<i32>, nb: Seq<[usize; 4]>, n: int)
    requires
        lat.len() == l * l,
        spins_valid(lat),
        grid_neighbors(l, nb),
        0 <= n <= l * l,
    ensures
        energy_prefix(negated(lat), nb, n) == energy_prefix(lat, nb, n),
    decreases n,
{
    if n > 0 {
        lemma_prefix_of_negated(l, lat, nb, n - 1);
        let p = n - 1;
        assert(nb[p][1] < l * l && nb[p][2] < l * l);
        let neg = negated(lat);
        let a = lat[p];
        let r = lat[nb[p][1] as int];
        let b = lat[nb[p][2] as int];
        assert(a == 1 || a == -1);
        assert(r == 1 || r == -1);
        assert(b == 1 || b == -1);
        assert(bond_energy(neg, nb, p) == -((-a) * ((-r) + (-b))));
        assert((-a) * ((-r) + (-b)) == a * (r + b)) by (nonlinear_arith);
    }
}

/// Law: flipping every spin keeps the energy of the lattice.
pub proof fn lemma_energy_of_negated(l: int, lat: Seq<i32>, nb: Seq<[usize; 4]>)
    requires
        side_fits(l),
        lat.len() == l * l,
        spins_valid(lat),
        grid_neighbors(l, nb),
    ensures
        lattice_energy(negated(lat), nb) == lattice_energy(lat, nb),
{
    lemma_prefix_of_negated(l, lat, nb, l * l);
}

/// The bonds of the first `n` sites of a lattice of equal spins each lower
/// the energy by 2.
proof fn lemma_prefix_of_uniform(l: int, lat: Seq<i32>, nb: Seq<[usize; 4]>, n: int)
    requires
        lat.len() == l * l,
        spins_valid(lat),
        grid_neighbors(l, nb),
        0 <= n <= l * l,
        forall|i: int| 0 <= i < lat.len() ==> #[trigger] lat[i] == lat[0],
    ensures
        energy_prefix(lat, nb, n) == -2 * n,
    decreases n,
{
    if n > 0 {
        lemma_prefix_of_uniform(l, lat, nb, n - 1);
        let p = n - 1;
        assert(nb[p][1] < l * l && nb[p][2] < l * l);
        let a = lat[p];
        assert(lat[nb[p][1] as int] == a && lat[nb[p][2] as int] == a);
        assert(a == 1 || a == -1);
        assert(a * (a + a) == 2) by (nonlinear_arith)
            requires
                a == 1 || a == -1,
        ;
    }
}

/// Law: a lattice of equal spins, all up or all down, has energy `-2 * l * l`.
pub proof fn lemma_energy_of_uniform(l: int, lat: Seq<i32>, nb: Seq<[usize; 4]>)
    requires
        side_fits(l),
        lat.len() == l * l,
        spins_valid(lat),
        grid_neighbors(l, nb),
        forall|i: int| 0 <= i < lat.len() ==> #[trigger] lat[i] == lat[0],
    ensures
        lattice_energy(lat, nb) == -2 * (l * l),
{
    lemma_prefix_of_uniform(l, lat, nb, l * l);
}

/// Law: on a periodic lattice of side at least 3, exchanging the opposite
/// spins of two neighbouring sites, in any direction, changes the energy of
/// the lattice by exactly the exchange delta, and that delta lies in
/// `-12 ..= 12`.
pub proof fn lemma_exchange_any_neighbor(
    l: int,
    lat: Seq<i32>,
    nb: Seq<[usize; 4]>,
    a: int,
    b: int,
)
    requires
        side_fits(l),
        l >= 3,
        lat.len() == l * l,
        spins_valid(lat),
        neighbor_table(l, BoundaryCondition::Periodic, nb),
        grid_neighbors(l, nb),
        0 <= a < l * l,
        is_neighbor(nb, a, b),
        lat[a] != lat[b],
    ensures
        lattice_energy(flipped(flipped(lat, a), b), nb) == lattice_energy(lat, nb) + exchange_delta(
            lat,
            nb,
            a,
            b,
        ),
        -12 <= exchange_delta(lat, nb, a, b) <= 12,
{
    let pb = BoundaryCondition::Periodic;
    assert(nb[a][0] < l * l && nb[a][1] < l * l && nb[a][2] < l * l && nb[a][3] < l * l);
    assert(0 <= b < l * l);
    lemma_top_bottom_inverse(l, a);
    lemma_periodic_right_left_inverse(l, a);
    lemma_periodic_right(l, a);
    lemma_periodic_left(l, a);
    assert(nb[b][0] == top_of(l, b) && nb[b][1] == right_of(l, pb, b));
    assert(nb[b][2] == bottom_of(l, b) && nb[b][3] == left_of(l, pb, b));
    if b == nb[a][1] {
        lemma_swap_changes_energy_by_delta(l, lat, nb, a, b);
        lemma_flip_delta_with_opposite_neighbor(l, lat, nb, a, 1);
        lemma_flip_delta_with_opposite_neighbor(l, lat, nb, b, 3);
    } else if b == nb[a][2] {
        lemma_swap_changes_energy_by_delta(l, lat, nb, a, b);
        lemma_flip_delta_with_opposite_neighbor(l, lat, nb, a, 2);
        lemma_flip_delta_with_opposite_neighbor(l, lat, nb, b, 0);
    } else {
        lemma_periodic_distinct(l, a);
        assert(flipped(flipped(lat, a), b) =~= flipped(flipped(lat, b), a));
        if b == nb[a][0] {
            assert(a == nb[b][2]);
            lemma_swap_changes_energy_by_delta(l, lat, nb, b, a);
            lemma_flip_delta_with_opposite_neighbor(l, lat, nb, a, 0);
            lemma_flip_delta_with_opposite_neighbor(l, lat, nb, b, 2);
        } else {
            assert(b == nb[a][3]);
            assert(a == nb[b][1]);
            lemma_swap_changes_energy_by_delta(l, lat, nb, b, a);
            lemma_flip_delta_with_opposite_neighbor(l, lat, nb, a, 3);
            lemma_flip_delta_with_opposite_neighbor(l, lat, nb, b, 1);
        }
    }
}

} // verus!
