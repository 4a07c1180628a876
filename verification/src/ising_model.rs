//! The lattice of spins, its neighbour table, and its energy and magnetisation.

use crate::energy_laws::{lemma_exchange_any_neighbor, lemma_flip_changes_energy_by_delta};
use crate::lattice::{
    bottom_of, energy_prefix, flip_delta, flipped, grid_neighbors, is_neighbor, lattice_energy,
    left_ij, left_of, lemma_energy_prefix_bounds, lemma_flip_delta_with_opposite_neighbor,
    lemma_seq_sum_bounds, lemma_seq_sum_update, lemma_side_fits, lemma_site_row_col,
    lemma_site_split, neighbor_table, right_ij, right_of, seq_sum, shifted_row, side_fits,
    spins_valid, top_of,
};
use crate::random::{random_coin, seeded_small_rng};
use vstd::prelude::*;

verus! {

/// How the spins are set when a model is made.
#[derive(Clone, Copy, PartialEq, Eq, Structural)]
pub enum InitialCondition {
    AllUp,
    AllDown,
    Random,
    /// The left half of every row down, the right half up.
    Instanton,
}

/// How the left and right edges of the lattice are joined.
pub enum BoundaryCondition {
    /// The last column's right neighbour is the first column of the same row.
    Periodic,
    /// The edge columns are joined to the same column of a row shifted by
    /// `l - l / 4`.
    Shifted,
}

/// An `l x l` lattice of spins (+1 or -1, row by row), its stored energy and
/// total spin, and each site's neighbours (top, right, bottom, left).
pub struct IsingModel {
    pub l: usize,
    pub lattice: Vec<i32>,
    pub energy: i32,
    pub total_spin: i32,
    pub neighbors: Vec<[usize; 4]>,
}

/// The spin that a deterministic initial condition puts at site `idx`.
pub open spec fn initial_spin(ic: InitialCondition, l: int, idx: int) -> i32 {
    match ic {
        InitialCondition::AllUp => 1,
        InitialCondition::AllDown => -1i32,
        InitialCondition::Instanton => if idx % l < l / 2 {
            -1i32
        } else {
            1
        },
        InitialCondition::Random => 1,
    }
}

/// The spin that a fair coin gives a site: up on heads, down on tails.
pub open spec fn coin_spin(heads: bool) -> i32 {
    if heads {
        1
    } else {
        -1i32
    }
}

/// The sum of the spins in column `x` of rows `0 .. rows`.
pub open spec fn column_sum(lat: Seq<i32>, l: int, x: int, rows: int) -> int
    decreases rows,
{
    if rows <= 0 {
        0
    } else {
        column_sum(lat, l, x, rows - 1) + lat[(rows - 1) * l + x]
    }
}

impl IsingModel {
    /// The model's invariant: an `l x l` lattice of spins with a grid of
    /// neighbours, and the total spin kept up to date.
    pub open spec fn wf(&self) -> bool {
        &&& side_fits(self.l as int)
        &&& self.lattice@.len() == self.l * self.l
        &&& spins_valid(self.lattice@)
        &&& grid_neighbors(self.l as int, self.neighbors@)
        &&& self.total_spin == seq_sum(self.lattice@)
    }

    /// The stored energy is the energy of the lattice.
    pub open spec fn energy_consistent(&self) -> bool {
        self.energy == lattice_energy(self.lattice@, self.neighbors@)
    }

    /// The neighbour table is that of a periodic lattice.
    pub open spec fn is_periodic(&self) -> bool {
        neighbor_table(self.l as int, BoundaryCondition::Periodic, self.neighbors@)
    }

    /// The stored energy can move by `slack` either way without leaving `i32`.
    pub open spec fn energy_room(&self, slack: int) -> bool {
        i32::MIN + slack <= self.energy <= i32::MAX - slack
    }

    /// Makes an `l x l` model with the spins that `ic` gives and the boundary
    /// `bc`; the energy and the total spin are computed from the lattice.
    /// For `Random` one fair coin per site, row by row, is drawn from a
    /// generator seeded with `seed`, and the spins follow them (see
    /// `from_coins`).
    pub fn new(l: usize, ic: InitialCondition, bc: BoundaryCondition, seed: u64) -> (model: Self)
        requires
            side_fits(l as int),
        ensures
            model.wf(),
            model.l == l,
            neighbor_table(l as int, bc, model.neighbors@),
            model.energy_consistent(),
            ic != InitialCondition::Random ==> forall|idx: int|
                0 <= idx < l * l ==> #[trigger] model.lattice@[idx] == initial_spin(ic, l as int, idx),
    {
        let mut rng = seeded_small_rng(seed);
        let n: usize = l * l;
        proof {
            lemma_side_fits(l as int);
        }
        match ic {
            InitialCondition::Random => {
                let mut coins: Vec<bool> = Vec::with_capacity(n);
                let mut i: usize = 0;
                while i < n
                    invariant
                        0 <= i <= n,
                        coins@.len() == i,
                    decreases n - i,
                {
                    coins.push(random_coin(&mut rng));
                    i = i + 1;
                }
                Self::from_coins(l, &coins, bc)
            },
            _ => {
                let lattice = Self::initial_lattice(l, ic);
                Self::from_lattice(l, lattice, bc)
            },
        }
    }

    /// The model whose spins follow `coins` site by site: up on heads, down
    /// on tails.
    pub fn from_coins(l: usize, coins: &[bool], bc: BoundaryCondition) -> (model: Self)
        requires
            side_fits(l as int),
            coins@.len() == l * l,
        ensures
            model.wf(),
            model.l == l,
            neighbor_table(l as int, bc, model.neighbors@),
            model.energy_consistent(),
            forall|idx: int| 0 <= idx < l * l ==> #[trigger] model.lattice@[idx] == coin_spin(coins@[idx]),
    {
        let n = coins.len();
        let mut lattice: Vec<i32> = Vec::with_capacity(n);
        let mut i: usize = 0;
        while i < n
            invariant
                0 <= i <= n,
                n == coins@.len(),
                lattice@.len() == i,
                spins_valid(lattice@),
                forall|idx: int| 0 <= idx < i ==> #[trigger] lattice@[idx] == coin_spin(coins@[idx]),
            decreases n - i,
        {
            let s: i32 = if coins[i] {
                1
            } else {
                -1
            };
            lattice.push(s);
            i = i + 1;
        }
        Self::from_lattice(l, lattice, bc)
    }

    /// The model holding `lattice`, with the neighbours of boundary `bc`; the
    /// energy and the total spin are computed from the lattice.
    fn from_lattice(l: usize, lattice: Vec<i32>, bc: BoundaryCondition) -> (model: Self)
        requires
            side_fits(l as int),
            lattice@.len() == l * l,
            spins_valid(lattice@),
        ensures
            model.wf(),
            model.l == l,
            model.lattice@ == lattice@,
            neighbor_table(l as int, bc, model.neighbors@),
            model.energy_consistent(),
    {
        let neighbors = Self::build_neighbors(l, bc);
        let mut model = IsingModel { l, lattice, energy: 0, total_spin: 0, neighbors };
        model.energy = model.compute_energy_int();
        model.total_spin = model.compute_magnetization();
        model
    }

    /// The spins of a deterministic initial condition `ic`, row by row.
    fn initial_lattice(l: usize, ic: InitialCondition) -> (lattice: Vec<i32>)
        requires
            side_fits(l as int),
        ensures
            lattice@.len() == l * l,
            spins_valid(lattice@),
            forall|idx: int| 0 <= idx < l * l ==> #[trigger] lattice@[idx] == initial_spin(ic, l as int, idx),
    {
        let n: usize = l * l;
        proof {
            lemma_side_fits(l as int);
        }
        let mut lattice: Vec<i32> = Vec::with_capacity(n);
        let mut i: usize = 0;
        let mut base: usize = 0;
        while i < l
            invariant
                0 <= i <= l,
                n == l * l,
                base == i * l,
                lattice@.len() == i * l,
                spins_valid(lattice@),
                l > 0 ==> base <= n,
                forall|idx: int| 0 <= idx < i * l ==> #[trigger] lattice@[idx] == initial_spin(ic, l as int, idx),
            decreases l - i,
        {
            proof {
                assert((i + 1) * l <= l * l) by (nonlinear_arith)
                    requires
                        i < l,
                ;
                assert((i + 1) * l == i * l + l) by (nonlinear_arith);
            }
            let mut j: usize = 0;
            while j < l
                invariant
                    0 <= i < l,
                    0 <= j <= l,
                    n == l * l,
                    base == i * l,
                    base + l <= n,
                    lattice@.len() == base + j,
                    spins_valid(lattice@),
                    forall|idx: int|
                        0 <= idx < base + j ==> #[trigger] lattice@[idx] == initial_spin(ic, l as int, idx),
                decreases l - j,
            {
                let val: i32 = match ic {
                    InitialCondition::AllUp => 1,
                    InitialCondition::AllDown => -1,
                    InitialCondition::Random => 1,
                    InitialCondition::Instanton => if j < l / 2 {
                        -1
                    } else {
                        1
                    },
                };
                proof {
                    lemma_site_row_col(l as int, i as int, j as int);
                }
                lattice.push(val);
                j = j + 1;
            }
            i = i + 1;
            base = base + l;
        }
        lattice
    }

    /// The neighbour table of an `l x l` lattice with boundary `bc`, built
    /// row by row.
    fn build_neighbors(l: usize, bc: BoundaryCondition) -> (neighbors: Vec<[usize; 4]>)
        requires
            side_fits(l as int),
        ensures
            neighbor_table(l as int, bc, neighbors@),
            grid_neighbors(l as int, neighbors@),
    {
        let n: usize = l * l;
        proof {
            lemma_side_fits(l as int);
        }
        let mut neighbors: Vec<[usize; 4]> = Vec::with_capacity(n);
        let mut i: usize = 0;
        let mut base: usize = 0;
        while i < l
            invariant
                0 <= i <= l,
                n == l * l,
                n <= i32::MAX,
                base == i * l,
                neighbors@.len() == i * l,
                forall|idx: int|
                    #![trigger neighbors@[idx]]
                    0 <= idx < i * l ==> {
                        &&& neighbors@[idx][0] == top_of(l as int, idx)
                        &&& neighbors@[idx][1] == right_of(l as int, bc, idx)
                        &&& neighbors@[idx][2] == bottom_of(l as int, idx)
                        &&& neighbors@[idx][3] == left_of(l as int, bc, idx)
                        &&& neighbors@[idx][0] < n
                        &&& neighbors@[idx][1] < n
                        &&& neighbors@[idx][2] < n
                        &&& neighbors@[idx][3] < n
                    },
            decreases l - i,
        {
            proof {
                assert((i + 1) * l <= l * l) by (nonlinear_arith)
                    requires
                        i < l,
                ;
                assert((i + 1) * l == i * l + l) by (nonlinear_arith);
            }
            let shifted_i: usize = (i + l - l / 4) % l;
            proof {
                assert(shifted_i * l + l <= l * l) by (nonlinear_arith)
                    requires
                        shifted_i < l,
                ;
            }
            let mut j: usize = 0;
            while j < l
                invariant
                    0 <= i < l,
                    0 <= j <= l,
                    n == l * l,
                    n <= i32::MAX,
                    base == i * l,
                    base + l <= n,
                    shifted_i == shifted_row(l as int, i as int),
                    shifted_i * l + l <= n,
                    neighbors@.len() == base + j,
                    forall|idx: int|
                        #![trigger neighbors@[idx]]
                        0 <= idx < base + j ==> {
                            &&& neighbors@[idx][0] == top_of(l as int, idx)
                            &&& neighbors@[idx][1] == right_of(l as int, bc, idx)
                            &&& neighbors@[idx][2] == bottom_of(l as int, idx)
                            &&& neighbors@[idx][3] == left_of(l as int, bc, idx)
                            &&& neighbors@[idx][0] < n
                            &&& neighbors@[idx][1] < n
                            &&& neighbors@[idx][2] < n
                            &&& neighbors@[idx][3] < n
                        },
                decreases l - j,
            {
                let idx = base + j;
                proof {
                    if i != 0 {
                        assert(i * l >= l) by (nonlinear_arith)
                            requires
                                i >= 1,
                        ;
                    }
                }
                let idx_top = if i == 0 {
                    n - l + j
                } else {
                    idx - l
                };
                let idx_bottom = if i == l - 1 {
                    j
                } else {
                    idx + l
                };
                let idx_right = if j == l - 1 {
                    match bc {
                        BoundaryCondition::Periodic => base,
                        BoundaryCondition::Shifted => shifted_i * l + j,
                    }
                } else {
                    idx + 1
                };
                let idx_left = if j == 0 {
                    match bc {
                        BoundaryCondition::Periodic => base + l - 1,
                        BoundaryCondition::Shifted => shifted_i * l + j,
                    }
                } else {
                    idx - 1
                };
                proof {
                    lemma_site_row_col(l as int, i as int, j as int);
                    assert(idx == i * l + j);
                    assert((i + 1) * l == i * l + l) by (nonlinear_arith);
                    if i == l - 1 {
                        assert(i * l == l * l - l) by (nonlinear_arith)
                            requires
                                i == l - 1,
                        ;
                    } else {
                        assert((i + 2) * l <= l * l) by (nonlinear_arith)
                            requires
                                i + 1 < l,
                        ;
                        assert((i + 2) * l == i * l + 2 * l) by (nonlinear_arith);
                    }
                    if i == 0 {
                        assert(i * l == 0) by (nonlinear_arith)
                            requires
                                i == 0,
                        ;
                    } else {
                        assert(i * l >= l) by (nonlinear_arith)
                            requires
                                i >= 1,
                        ;
                    }
                    let li = l as int;
                    let p = idx as int;
                    assert(idx_top == top_of(li, p));
                    assert(idx_bottom == bottom_of(li, p));
                    assert(idx_right == right_ij(li, bc, i as int, j as int));
                    assert(idx_left == left_ij(li, bc, i as int, j as int));
                    assert(idx_right == right_of(li, bc, p));
                    assert(idx_left == left_of(li, bc, p));
                    assert(idx_top < n && idx_bottom < n && idx_right < n && idx_left < n);
                }
                let ghost prev = neighbors@;
                neighbors.push([idx_top, idx_right, idx_bottom, idx_left]);
                proof {
                    assert forall|q: int|
                        #![trigger neighbors@[q]]
                        0 <= q < base + j + 1 implies {
                            &&& neighbors@[q][0] == top_of(l as int, q)
                            &&& neighbors@[q][1] == right_of(l as int, bc, q)
                            &&& neighbors@[q][2] == bottom_of(l as int, q)
                            &&& neighbors@[q][3] == left_of(l as int, bc, q)
                            &&& neighbors@[q][0] < n
                            &&& neighbors@[q][1] < n
                            &&& neighbors@[q][2] < n
                            &&& neighbors@[q][3] < n
                        } by {
                        if q < base + j {
                            assert(neighbors@[q] == prev[q]);
                        }
                    }
                }
                j = j + 1;
            }
            i = i + 1;
            base = base + l;
        }
        proof {
            assert forall|idx: int| 0 <= idx < l * l implies (idx % (l as int) != l - 1 ==> #[trigger] neighbors@[idx][1]
                == idx + 1) && (idx % (l as int) != 0 ==> neighbors@[idx][3] == idx - 1) by {
                lemma_site_split(l as int, idx);
                let r = idx / (l as int);
                let c = idx % (l as int);
                assert(idx == r * l + c);
            }
        }
        neighbors
    }

    /// The energy of the lattice, computed from the spins: every site's right
    /// and bottom bond.
    pub fn compute_energy_int(&self) -> (energy: i32)
        requires
            side_fits(self.l as int),
            self.lattice@.len() == self.l * self.l,
            spins_valid(self.lattice@),
            grid_neighbors(self.l as int, self.neighbors@),
        ensures
            energy == lattice_energy(self.lattice@, self.neighbors@),
    {
        proof {
            lemma_side_fits(self.l as int);
        }
        let n: usize = self.l * self.l;
        let mut energy: i32 = 0;
        let mut idx: usize = 0;
        while idx < n
            invariant
                n == self.l * self.l,
                2 * n <= i32::MAX,
                0 <= idx <= n,
                self.lattice@.len() == n,
                spins_valid(self.lattice@),
                grid_neighbors(self.l as int, self.neighbors@),
                energy == energy_prefix(self.lattice@, self.neighbors@, idx as int),
                -2 * idx <= energy <= 2 * idx,
            decreases n - idx,
        {
            let ghost p = idx as int;
            assert(self.neighbors@[p][1] < n);
            assert(self.neighbors@[p][2] < n);
            proof {
                lemma_energy_prefix_bounds(self.l as int, self.lattice@, self.neighbors@, p + 1);
            }
            let idx_right = self.neighbors[idx][1];
            let idx_bottom = self.neighbors[idx][2];
            assert(idx_bottom == bottom_of(self.l as int, p));
            energy = energy - self.lattice[idx] * (self.lattice[idx_right] + self.lattice[idx_bottom]);
            idx = idx + 1;
        }
        energy
    }

    /// The sum of all spins.
    pub fn compute_magnetization(&self) -> (magnetization: i32)
        requires
            side_fits(self.l as int),
            self.lattice@.len() == self.l * self.l,
            spins_valid(self.lattice@),
        ensures
            magnetization == seq_sum(self.lattice@),
    {
        proof {
            lemma_side_fits(self.l as int);
        }
        let n: usize = self.l * self.l;
        let mut magnetization: i32 = 0;
        let mut i: usize = 0;
        while i < n
            invariant
                n == self.l * self.l,
                2 * n <= i32::MAX,
                0 <= i <= n,
                self.lattice@.len() == n,
                spins_valid(self.lattice@),
                magnetization == seq_sum(self.lattice@.take(i as int)),
                -i <= magnetization <= i,
            decreases n - i,
        {
            assert(self.lattice@.take(i + 1).drop_last() =~= self.lattice@.take(i as int));
            magnetization = magnetization + self.lattice[i];
            i = i + 1;
        }
        assert(self.lattice@.take(n as int) =~= self.lattice@);
        magnetization
    }

    /// The energy change of flipping site `idx`: twice its spin times the sum
    /// of its four neighbours' spins.
    pub fn flip_energy_delta(&self, idx: usize) -> (delta: i32)
        requires
            self.wf(),
            idx < self.l * self.l,
        ensures
            delta == flip_delta(self.lattice@, self.neighbors@, idx as int),
            -8 <= delta <= 8,
            delta % 4 == 0,
    {
        let ghost p = idx as int;
        assert(self.neighbors@[p][0] < self.l * self.l);
        assert(self.neighbors@[p][2] < self.l * self.l);
        let sum_neighbors = self.lattice[self.neighbors[idx][0]] + self.lattice[self.neighbors[idx][1]]
            + self.lattice[self.neighbors[idx][2]] + self.lattice[self.neighbors[idx][3]];
        let alignment = self.lattice[idx] * sum_neighbors;
        2 * alignment
    }

    /// Flips site `idx` and adds `energy_delta` to the stored energy; the total
    /// spin follows the flip.
    pub fn flip(&mut self, idx: usize, energy_delta: i32)
        requires
            old(self).wf(),
            idx < old(self).l * old(self).l,
            i32::MIN <= old(self).energy + energy_delta <= i32::MAX,
        ensures
            final(self).wf(),
            final(self).l == old(self).l,
            final(self).neighbors@ == old(self).neighbors@,
            final(self).lattice@ == flipped(old(self).lattice@, idx as int),
            final(self).energy == old(self).energy + energy_delta,
            final(self).total_spin == old(self).total_spin + 2 * final(self).lattice@[idx as int],
            old(self).is_periodic() && old(self).l >= 2 && old(self).energy_consistent()
                && energy_delta == flip_delta(old(self).lattice@, old(self).neighbors@, idx as int)
                ==> final(self).energy_consistent(),
    {
        let s = self.lattice[idx];
        self.lattice.set(idx, -s);
        proof {
            lemma_seq_sum_update(old(self).lattice@, idx as int, (-s) as i32);
            lemma_seq_sum_bounds(self.lattice@);
            lemma_side_fits(self.l as int);
        }
        self.energy = self.energy + energy_delta;
        self.total_spin = self.total_spin + 2 * self.lattice[idx];
        proof {
            if old(self).is_periodic() && old(self).l >= 2 {
                lemma_flip_changes_energy_by_delta(
                    self.l as int,
                    old(self).lattice@,
                    self.neighbors@,
                    idx as int,
                );
            }
        }
    }

    /// The energy change of exchanging the spins of two neighbouring sites
    /// that hold opposite spins: both flip deltas, plus 4 for the bond between
    /// them, which the two deltas each count as broken.
    pub fn swap_energy_delta(&self, idx1: usize, idx2: usize) -> (delta: i32)
        requires
            self.wf(),
            idx1 < self.l * self.l,
            idx2 < self.l * self.l,
        ensures
            delta == flip_delta(self.lattice@, self.neighbors@, idx1 as int) + flip_delta(
                self.lattice@,
                self.neighbors@,
                idx2 as int,
            ) + 4,
            -12 <= delta <= 20,
            delta % 4 == 0,
            is_neighbor(self.neighbors@, idx1 as int, idx2 as int) && is_neighbor(
                self.neighbors@,
                idx2 as int,
                idx1 as int,
            ) && self.lattice@[idx1 as int] != self.lattice@[idx2 as int] ==> -12 <= delta <= 12,
    {
        proof {
            let l = self.l as int;
            let lat = self.lattice@;
            let nb = self.neighbors@;
            let (a, b) = (idx1 as int, idx2 as int);
            if is_neighbor(nb, a, b) && is_neighbor(nb, b, a) && lat[a] != lat[b] {
                let s1 = if b == nb[a][0] { 0 } else if b == nb[a][1] { 1 } else if b == nb[a][2] { 2 } else { 3int };
                let s2 = if a == nb[b][0] { 0 } else if a == nb[b][1] { 1 } else if a == nb[b][2] { 2 } else { 3int };
                lemma_flip_delta_with_opposite_neighbor(l, lat, nb, a, s1);
                lemma_flip_delta_with_opposite_neighbor(l, lat, nb, b, s2);
            }
        }
        self.flip_energy_delta(idx1) + self.flip_energy_delta(idx2) + 4
    }

    /// Exchanges the opposite spins of sites `idx1` and `idx2` and adds
    /// `energy_delta` to the stored energy; the total spin does not change.
    pub fn swap(&mut self, idx1: usize, idx2: usize, energy_delta: i32)
        requires
            old(self).wf(),
            idx1 < old(self).l * old(self).l,
            idx2 < old(self).l * old(self).l,
            old(self).lattice@[idx1 as int] != old(self).lattice@[idx2 as int],
            i32::MIN <= old(self).energy + energy_delta <= i32::MAX,
        ensures
            final(self).wf(),
            final(self).l == old(self).l,
            final(self).neighbors@ == old(self).neighbors@,
            final(self).lattice@ == flipped(flipped(old(self).lattice@, idx1 as int), idx2 as int),
            final(self).energy == old(self).energy + energy_delta,
            final(self).total_spin == old(self).total_spin,
            old(self).is_periodic() && old(self).l >= 3 && old(self).energy_consistent()
                && is_neighbor(old(self).neighbors@, idx1 as int, idx2 as int) && energy_delta == flip_delta(old(self).lattice@, old(self).neighbors@, idx1 as int)
                + flip_delta(old(self).lattice@, old(self).neighbors@, idx2 as int) + 4
                ==> final(self).energy_consistent(),
    {
        let s1 = self.lattice[idx1];
        self.lattice.set(idx1, -s1);
        let s2 = self.lattice[idx2];
        self.lattice.set(idx2, -s2);
        proof {
            let lat0 = old(self).lattice@;
            let lat1 = lat0.update(idx1 as int, (-s1) as i32);
            lemma_seq_sum_update(lat0, idx1 as int, (-s1) as i32);
            lemma_seq_sum_update(lat1, idx2 as int, (-s2) as i32);
            if old(self).is_periodic() && old(self).l >= 3 && is_neighbor(
                old(self).neighbors@,
                idx1 as int,
                idx2 as int,
            ) {
                lemma_exchange_any_neighbor(
                    self.l as int,
                    lat0,
                    self.neighbors@,
                    idx1 as int,
                    idx2 as int,
                );
            }
        }
        self.energy = self.energy + energy_delta;
    }

    /// Adds to each `sums[x]` the sum of the spins of column `x`.
    pub fn add_column_sums(&self, sums: &mut Vec<i64>)
        requires
            self.wf(),
            old(sums)@.len() == self.l,
            forall|x: int|
                0 <= x < self.l ==> -(i64::MAX - self.l) <= #[trigger] old(sums)@[x] <= i64::MAX
                    - self.l,
        ensures
            final(sums)@.len() == self.l,
            forall|x: int|
                0 <= x < self.l ==> #[trigger] final(sums)@[x] == old(sums)@[x] + column_sum(
                    self.lattice@,
                    self.l as int,
                    x,
                    self.l as int,
                ),
    {
        let l = self.l;
        proof {
            lemma_side_fits(l as int);
        }
        let mut x: usize = 0;
        while x < l
            invariant
                self.wf(),
                l == self.l,
                side_fits(l as int),
                0 <= x <= l,
                sums@.len() == l,
                l <= 0x8000,
                forall|z: int|
                    0 <= z < l ==> -(i64::MAX - l) <= #[trigger] old(sums)@[z] <= i64::MAX - l,
                forall|z: int|
                    0 <= z < x ==> #[trigger] sums@[z] == old(sums)@[z] + column_sum(
                        self.lattice@,
                        l as int,
                        z,
                        l as int,
                    ),
                forall|z: int| x <= z < l ==> #[trigger] sums@[z] == old(sums)@[z],
            decreases l - x,
        {
            let mut sum: i64 = 0;
            let mut y: usize = 0;
            while y < l
                invariant
                    self.wf(),
                    l == self.l,
                    side_fits(l as int),
                    0 <= x < l,
                    0 <= y <= l,
                    sum == column_sum(self.lattice@, l as int, x as int, y as int),
                    -y <= sum <= y,
                    l <= 0x8000,
                decreases l - y,
            {
                proof {
                    assert(y * l + x < l * l) by (nonlinear_arith)
                        requires
                            y < l,
                            x < l,
                    ;
                }
                let s = self.lattice[y * l + x];
                assert(s == 1 || s == -1);
                sum = sum + s as i64;
                y = y + 1;
            }
            let v = sums[x] + sum;
            sums.set(x, v);
            x = x + 1;
        }
    }
}

} // verus!
