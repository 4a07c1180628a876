use ising::ising_model::{BoundaryCondition, InitialCondition, IsingModel};

const SEED: u64 = 20240607;

fn brute_energy(model: &IsingModel) -> i32 {
    // Every site's right and bottom bond on the neighbour table.
    let mut e = 0;
    for idx in 0..model.l * model.l {
        let s = model.lattice[idx];
        e -= s * (model.lattice[model.neighbors[idx][1]] + model.lattice[model.neighbors[idx][2]]);
    }
    e
}

#[test]
fn new_all_up_periodic() {
    let model = IsingModel::new(4, InitialCondition::AllUp, BoundaryCondition::Periodic, SEED);
    assert_eq!(model.l, 4);
    assert_eq!(model.lattice, vec![1; 16]);
    assert_eq!(model.total_spin, 16);
    assert_eq!(model.energy, -32);
    assert_eq!(model.neighbors[0], [12, 1, 4, 3]);
    assert_eq!(model.neighbors[5], [1, 6, 9, 4]);
    assert_eq!(model.neighbors[15], [11, 12, 3, 14]);
}

#[test]
fn new_all_down() {
    let model = IsingModel::new(3, InitialCondition::AllDown, BoundaryCondition::Periodic, SEED);
    assert_eq!(model.lattice, vec![-1; 9]);
    assert_eq!(model.total_spin, -9);
    assert_eq!(model.energy, -18);
}

#[test]
fn new_instanton() {
    let model = IsingModel::new(4, InitialCondition::Instanton, BoundaryCondition::Periodic, SEED);
    let row = [-1, -1, 1, 1];
    for idx in 0..16 {
        assert_eq!(model.lattice[idx], row[idx % 4]);
    }
    assert_eq!(model.total_spin, 0);
    assert_eq!(model.energy, -16);
    assert_eq!(model.energy, model.compute_energy_int());
}

#[test]
fn new_random_is_consistent() {
    let model = IsingModel::new(6, InitialCondition::Random, BoundaryCondition::Shifted, SEED);
    assert!(model.lattice.iter().all(|&s| s == 1 || s == -1));
    assert_eq!(model.total_spin, model.lattice.iter().sum::<i32>());
    assert_eq!(model.energy, brute_energy(&model));
    assert_eq!(model.total_spin, model.compute_magnetization());
}

#[test]
fn shifted_boundary_neighbours() {
    // l = 4: the edge columns join the same column of row (i + 3) % 4.
    let model = IsingModel::new(4, InitialCondition::AllUp, BoundaryCondition::Shifted, SEED);
    assert_eq!(model.neighbors[3][1], 15);
    assert_eq!(model.neighbors[0][3], 12);
    assert_eq!(model.neighbors[7][1], 3);
    assert_eq!(model.neighbors[4][3], 0);
    assert_eq!(model.neighbors[1], [13, 2, 5, 0]);
}

#[test]
fn empty_lattice() {
    let model = IsingModel::new(0, InitialCondition::AllUp, BoundaryCondition::Periodic, SEED);
    assert!(model.lattice.is_empty());
    assert!(model.neighbors.is_empty());
    assert_eq!(model.energy, 0);
    assert_eq!(model.total_spin, 0);
}

#[test]
fn single_site_lattice_is_its_own_neighbour() {
    let model = IsingModel::new(1, InitialCondition::AllUp, BoundaryCondition::Periodic, SEED);
    assert_eq!(model.neighbors[0], [0, 0, 0, 0]);
    assert_eq!(model.energy, -2);
    assert_eq!(model.flip_energy_delta(0), 8);
}

#[test]
fn flip_energy_delta_all_up() {
    let model = IsingModel::new(4, InitialCondition::AllUp, BoundaryCondition::Periodic, SEED);
    for idx in 0..16 {
        assert_eq!(model.flip_energy_delta(idx), 8);
    }
}

#[test]
fn flip_keeps_periodic_energy_right() {
    let mut model = IsingModel::new(5, InitialCondition::Random, BoundaryCondition::Periodic, SEED);
    for idx in [0, 7, 7, 24, 12, 4, 20] {
        let delta = model.flip_energy_delta(idx);
        let before = model.total_spin;
        model.flip(idx, delta);
        assert_eq!(model.energy, model.compute_energy_int());
        assert_eq!(model.total_spin, before + 2 * model.lattice[idx]);
        assert_eq!(model.total_spin, model.compute_magnetization());
    }
}

#[test]
fn flip_twice_restores() {
    let mut model = IsingModel::new(4, InitialCondition::Instanton, BoundaryCondition::Periodic, SEED);
    let lattice = model.lattice.clone();
    let energy = model.energy;
    let d1 = model.flip_energy_delta(6);
    model.flip(6, d1);
    let d2 = model.flip_energy_delta(6);
    assert_eq!(d2, -d1);
    model.flip(6, d2);
    assert_eq!(model.lattice, lattice);
    assert_eq!(model.energy, energy);
}

#[test]
fn swap_keeps_periodic_energy_and_spin() {
    let mut model = IsingModel::new(4, InitialCondition::Instanton, BoundaryCondition::Periodic, SEED);
    // Sites 1 (down) and 2 (up) are horizontal neighbours.
    let delta = model.swap_energy_delta(1, 2);
    let spin = model.total_spin;
    model.swap(1, 2, delta);
    assert_eq!(model.lattice[1], 1);
    assert_eq!(model.lattice[2], -1);
    assert_eq!(model.total_spin, spin);
    assert_eq!(model.energy, model.compute_energy_int());
    // A vertical pair across the wrapping edge: site 12 (row 3) and site 0.
    model.flip(0, model.flip_energy_delta(0));
    let delta = model.swap_energy_delta(12, 0);
    let spin = model.total_spin;
    model.swap(12, 0, delta);
    assert_eq!(model.total_spin, spin);
    assert_eq!(model.energy, model.compute_energy_int());
}

#[test]
fn swap_energy_delta_formula() {
    let model = IsingModel::new(4, InitialCondition::Instanton, BoundaryCondition::Periodic, SEED);
    assert_eq!(
        model.swap_energy_delta(1, 2),
        model.flip_energy_delta(1) + model.flip_energy_delta(2) + 4
    );
    assert_eq!(model.flip_energy_delta(1), 4);
    assert_eq!(model.flip_energy_delta(2), 4);
    assert_eq!(model.swap_energy_delta(1, 2), 12);
}

#[test]
fn add_column_sums_adds_each_column() {
    let model = IsingModel::new(4, InitialCondition::Instanton, BoundaryCondition::Periodic, SEED);
    let mut sums = vec![10, 0, -3, 5];
    model.add_column_sums(&mut sums);
    // Instanton: columns 0 and 1 down, 2 and 3 up, four rows each.
    assert_eq!(sums, vec![6, -4, 1, 9]);
}

#[test]
fn flipping_every_spin_keeps_the_energy() {
    let mut model = IsingModel::new(5, InitialCondition::Random, BoundaryCondition::Periodic, SEED);
    let e = model.compute_energy_int();
    for k in 0..25 {
        let d = model.flip_energy_delta(k);
        model.flip(k, d);
    }
    assert_eq!(model.compute_energy_int(), e);
    let up = IsingModel::new(5, InitialCondition::AllUp, BoundaryCondition::Periodic, SEED);
    assert_eq!(up.compute_energy_int(), -2 * 25);
}

#[test]
fn exchange_with_top_or_left_neighbour_moves_energy_by_delta() {
    let mut model = IsingModel::new(4, InitialCondition::Random, BoundaryCondition::Periodic, SEED);
    for a in 0..16 {
        for s in [0, 3] {
            let b = model.neighbors[a][s];
            if model.lattice[a] != model.lattice[b] {
                let before = model.compute_energy_int();
                let d = model.swap_energy_delta(a, b);
                assert!((-12..=12).contains(&d));
                model.swap(a, b, d);
                assert_eq!(model.compute_energy_int(), before + d);
                assert_eq!(model.energy, model.compute_energy_int());
            }
        }
    }
}

#[test]
fn spins_follow_the_coins() {
    let coins = [true, false, false, true];
    let model = IsingModel::from_coins(2, &coins, BoundaryCondition::Periodic);
    assert_eq!(model.lattice, vec![1, -1, -1, 1]);
    assert_eq!(model.total_spin, 0);
    assert_eq!(model.energy, model.compute_energy_int());
    let all_tails = IsingModel::from_coins(3, &[false; 9], BoundaryCondition::Shifted);
    assert_eq!(all_tails.lattice, vec![-1; 9]);
    assert_eq!(all_tails.total_spin, -9);
}
