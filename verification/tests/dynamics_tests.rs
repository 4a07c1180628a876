use ising::dynamics::common::{
    build_edges, build_reservoir, couple_annealed, couple_annealed_row, couple_reservoir_bond,
    entries_within, process_reservoir_bond, process_reservoirs, reservoir_coin_index,
    sweep_drift_of, RESERVOIR_SIZE,
};
use ising::dynamics::creutz::CreutzDynamics;
use ising::dynamics::creutz_kawasaki::CreutzKawasakiDynamics;
use ising::dynamics::creutz_kawasaki_random::CreutzKawasakiRandomDynamics;
use ising::dynamics::creutz_thermal::CreutzThermalDynamics;
use ising::dynamics::exchange::{demon_exchange, swap_coin_index};
use ising::dynamics::kawasaki::KawasakiDynamics;
use ising::dynamics::kawasaki_reservoir_struct::KawasakiReservoirStructDynamics;
use ising::dynamics::metropolis::{flip_coin_index, MetropolisDynamics};
use ising::dynamics::{BondSelection, DemonReplacementMode, Dynamics, ReservoirType};
use ising::ising_model::{BoundaryCondition, InitialCondition, IsingModel};
use rand::distr::Bernoulli;
use rand::rngs::SmallRng;

const SEED: u64 = 20240607;

fn coin(p: f64) -> Bernoulli {
    Bernoulli::new(p).unwrap()
}

fn coins(p: f64, n: usize) -> Vec<Bernoulli> {
    (0..n).map(|_| coin(p)).collect()
}

fn rng() -> SmallRng {
    rand::make_rng()
}

fn count(v: &[i32], x: i32) -> usize {
    v.iter().filter(|&&s| s == x).count()
}

#[test]
fn build_edges_table_for_three() {
    let (edges, n_horizontal, n_internal, n_total) = build_edges(3);
    assert_eq!(n_horizontal, 6);
    assert_eq!(n_internal, 15);
    assert_eq!(n_total, 21);
    assert_eq!(edges.len(), 21);
    assert_eq!(edges[0], [0, 1]);
    assert_eq!(edges[1], [1, 2]);
    assert_eq!(edges[2], [3, 4]);
    assert_eq!(edges[5], [7, 8]);
    assert_eq!(edges[6], [0, 3]);
    assert_eq!(edges[9], [3, 6]);
    assert_eq!(edges[12], [6, 0]);
    assert_eq!(edges[14], [8, 2]);
    assert_eq!(edges[15], [0, 0]);
    assert_eq!(edges[16], [2, 1]);
    assert_eq!(edges[17], [3, 0]);
    assert_eq!(edges[20], [8, 1]);
}

#[test]
fn build_edges_single_site() {
    let (edges, n_horizontal, n_internal, n_total) = build_edges(1);
    assert_eq!((n_horizontal, n_internal, n_total), (0, 1, 3));
    assert_eq!(edges, vec![[0, 0], [0, 0], [0, 1]]);
}

#[test]
fn build_reservoir_counts() {
    let mut r = rng();
    let res = build_reservoir(10, 3, &mut r);
    assert_eq!(res.len(), 10);
    assert_eq!(count(&res, 1), 3);
    assert_eq!(count(&res, -1), 7);
}

#[test]
fn build_reservoir_clamps_up_count() {
    let mut r = rng();
    let res = build_reservoir(5, 9, &mut r);
    assert_eq!(res, vec![1; 5]);
    assert!(build_reservoir(0, 0, &mut r).is_empty());
}

#[test]
fn build_reservoir_is_shuffled() {
    let mut r = rng();
    let res = build_reservoir(1000, 500, &mut r);
    let mut sorted = vec![1; 500];
    sorted.extend(vec![-1; 500]);
    assert_eq!(count(&res, 1), 500);
    assert_ne!(res, sorted);
}

#[test]
fn small_helpers() {
    assert_eq!(sweep_drift_of(3), 840);
    assert_eq!(sweep_drift_of(0), 0);
    assert!(entries_within(&vec![1, -5, 3], 5));
    assert!(!entries_within(&vec![1, -5, 3], 4));
    assert!(entries_within(&vec![], -1));
    assert!(!entries_within(&vec![0], -1));
    assert_eq!(reservoir_coin_index(0, 1), 0);
    assert_eq!(reservoir_coin_index(0, -1), 1);
    assert_eq!(reservoir_coin_index(1, -1), 0);
    assert_eq!(reservoir_coin_index(1, 1), 1);
    assert_eq!(swap_coin_index(-12), 0);
    assert_eq!(swap_coin_index(0), 3);
    assert_eq!(swap_coin_index(12), 6);
    assert_eq!(flip_coin_index(-8), 0);
    assert_eq!(flip_coin_index(0), 2);
    assert_eq!(flip_coin_index(8), 4);
    assert_eq!(RESERVOIR_SIZE, 10000);
}

#[test]
fn quenched_reservoir_bond_sets_the_site() {
    let mut model = IsingModel::new(3, InitialCondition::AllUp, BoundaryCondition::Periodic, SEED);
    let left = [-1, 1];
    let right = [1, 1, -1];
    let (mut cl, mut cr) = (0usize, 2usize);
    let mut r = rng();
    let flips = coins(1.0, 2);
    process_reservoir_bond(
        &mut model, 0, 0, ReservoirType::Quenched, &flips, &left, &right, &mut cl, &mut cr, &mut r,
    );
    assert_eq!(model.lattice[0], -1);
    assert_eq!((cl, cr), (1, 2));
    assert_eq!(model.energy, -10);
    assert_eq!(model.energy, model.compute_energy_int());
    process_reservoir_bond(
        &mut model, 0, 0, ReservoirType::Quenched, &flips, &left, &right, &mut cl, &mut cr, &mut r,
    );
    assert_eq!(model.lattice[0], 1);
    assert_eq!((cl, cr), (0, 2));
    assert_eq!(model.energy, -18);
    process_reservoir_bond(
        &mut model, 2, 1, ReservoirType::Quenched, &flips, &left, &right, &mut cl, &mut cr, &mut r,
    );
    assert_eq!(model.lattice[2], -1);
    assert_eq!((cl, cr), (0, 0));
    assert_eq!(model.total_spin, 7);
}

#[test]
fn annealed_reservoir_bond_tosses_the_side_coin() {
    let mut model = IsingModel::new(3, InitialCondition::AllUp, BoundaryCondition::Periodic, SEED);
    let (mut cl, mut cr) = (0usize, 0usize);
    let mut r = rng();
    // Coin 0 always flips, coin 1 never does.
    let flips = vec![coin(1.0), coin(0.0)];
    // Left side, spin up: coin 0.
    process_reservoir_bond(
        &mut model, 0, 0, ReservoirType::Annealed, &flips, &[], &[], &mut cl, &mut cr, &mut r,
    );
    assert_eq!(model.lattice[0], -1);
    // Left side, spin down: coin 1.
    process_reservoir_bond(
        &mut model, 0, 0, ReservoirType::Annealed, &flips, &[], &[], &mut cl, &mut cr, &mut r,
    );
    assert_eq!(model.lattice[0], -1);
    // Right side, spin up: coin 1.
    process_reservoir_bond(
        &mut model, 2, 1, ReservoirType::Annealed, &flips, &[], &[], &mut cl, &mut cr, &mut r,
    );
    assert_eq!(model.lattice[2], 1);
    assert_eq!((cl, cr), (0, 0));
    assert_eq!(model.energy, model.compute_energy_int());
}

#[test]
fn quenched_reservoirs_set_both_columns() {
    let mut model = IsingModel::new(3, InitialCondition::AllUp, BoundaryCondition::Periodic, SEED);
    let left = [-1, -1, -1, -1];
    let right = [1, 1, 1, 1];
    let (mut cl, mut cr) = (1usize, 3usize);
    let mut r = rng();
    process_reservoirs(
        &mut model,
        ReservoirType::Quenched,
        &coins(0.5, 2),
        &left,
        &right,
        &mut cl,
        &mut cr,
        &mut r,
    );
    assert_eq!(model.lattice, vec![-1, 1, 1, -1, 1, 1, -1, 1, 1]);
    assert_eq!((cl, cr), (0, 2));
    assert_eq!(model.energy, model.compute_energy_int());
    assert_eq!(model.total_spin, 3);
}

#[test]
fn annealed_reservoirs_with_certain_coins() {
    let mut model = IsingModel::new(4, InitialCondition::AllUp, BoundaryCondition::Periodic, SEED);
    let (mut cl, mut cr) = (0usize, 0usize);
    let mut r = rng();
    // Left column, spin up: coin 0 flips it; right column, spin up: coin 1 keeps it.
    process_reservoirs(
        &mut model,
        ReservoirType::Annealed,
        &vec![coin(1.0), coin(0.0)],
        &[],
        &[],
        &mut cl,
        &mut cr,
        &mut r,
    );
    for y in 0..4 {
        assert_eq!(model.lattice[y * 4], -1);
        assert_eq!(model.lattice[y * 4 + 3], 1);
        assert_eq!(model.lattice[y * 4 + 1], 1);
    }
    assert_eq!(model.energy, model.compute_energy_int());
}

#[test]
fn creutz_sweep_exact_outcome() {
    let mut model = IsingModel::new(4, InitialCondition::AllUp, BoundaryCondition::Periodic, SEED);
    let mut d = CreutzDynamics::new(4, 2, 10);
    assert_eq!(d.demons, vec![2; 16]);
    assert_eq!(d.max_demon, 10);
    d.sweep(&mut model);
    // The even sites flip first, each demon paying 2; then the odd sites
    // flip back into line, each demon taking 2.
    assert_eq!(model.lattice, vec![-1; 16]);
    assert_eq!(model.energy, -32);
    for y in 0..4 {
        for x in 0..4 {
            let expected = if (x + y) % 2 == 0 { 0 } else { 4 };
            assert_eq!(d.demons[y * 4 + x], expected);
        }
    }
    let demon_sum: i32 = d.demons.iter().sum();
    assert_eq!(model.energy + 4 * demon_sum, -32 + 4 * 32);
}

#[test]
fn creutz_demon_cap_blocks_flips() {
    let mut model = IsingModel::new(4, InitialCondition::AllUp, BoundaryCondition::Periodic, SEED);
    let mut d = CreutzDynamics::new(4, 2, 3);
    d.sweep(&mut model);
    for y in 0..4 {
        for x in 0..4 {
            let even = (x + y) % 2 == 0;
            assert_eq!(model.lattice[y * 4 + x], if even { -1 } else { 1 });
            assert_eq!(d.demons[y * 4 + x], if even { 0 } else { 2 });
        }
    }
    assert_eq!(model.energy, 32);
    assert_eq!(model.energy, model.compute_energy_int());
}

#[test]
fn creutz_conserves_energy_on_random_lattice() {
    let mut model = IsingModel::new(6, InitialCondition::Random, BoundaryCondition::Periodic, SEED);
    let mut d = CreutzDynamics::new(6, 3, 8);
    let total = model.energy + 4 * d.demons.iter().sum::<i32>();
    for _ in 0..20 {
        d.sweep(&mut model);
        assert_eq!(model.energy + 4 * d.demons.iter().sum::<i32>(), total);
        assert!(d.demons.iter().all(|&x| (0..=8).contains(&x)));
        assert_eq!(model.energy, model.compute_energy_int());
    }
}

#[test]
fn demon_exchange_pays_from_the_demon() {
    // Sites 5 and 6 of a 4 x 4 lattice point down; exchanging 6 with 7 breaks
    // the pair apart and costs 4.
    let mut model = IsingModel::new(4, InitialCondition::AllUp, BoundaryCondition::Periodic, SEED);
    let d5 = model.flip_energy_delta(5);
    model.flip(5, d5);
    let d6 = model.flip_energy_delta(6);
    model.flip(6, d6);
    assert_eq!(model.swap_energy_delta(6, 7), 4);
    let mut demons = vec![0; 16];
    assert!(!demon_exchange(&mut model, &mut demons, 6, 7));
    assert_eq!(model.lattice[6], -1);
    demons[6] = 5;
    let before = model.energy;
    assert!(demon_exchange(&mut model, &mut demons, 6, 7));
    assert_eq!(model.lattice[6], 1);
    assert_eq!(model.lattice[7], -1);
    assert_eq!(demons[6], 1);
    assert_eq!(model.energy, before + 4);
    assert_eq!(model.energy, model.compute_energy_int());
    // Back again: the energy falls by 4 and the demon takes it in.
    assert!(demon_exchange(&mut model, &mut demons, 6, 7));
    assert_eq!(demons[6], 5);
    assert_eq!(model.energy, before);
}

#[test]
fn metropolis_with_coins_that_never_flip() {
    let mut model = IsingModel::new(5, InitialCondition::Random, BoundaryCondition::Periodic, SEED);
    let before = model.lattice.clone();
    let mut d = MetropolisDynamics::new(coins(0.0, 5), SEED);
    assert!(d.sweep_fits(&model));
    d.sweep(&mut model);
    assert_eq!(model.lattice, before);
}

#[test]
fn metropolis_with_coins_that_always_flip() {
    let mut model = IsingModel::new(5, InitialCondition::AllUp, BoundaryCondition::Periodic, SEED);
    let mut d = MetropolisDynamics::new(coins(0.0, 5), SEED);
    d.set_temperature(coins(1.0, 5));
    for _ in 0..5 {
        d.sweep(&mut model);
        assert_eq!(model.energy, model.compute_energy_int());
        assert_eq!(model.total_spin, model.compute_magnetization());
    }
    assert_eq!(d.flip_coins.len(), 5);
}

#[test]
fn kawasaki_with_closed_coins_changes_nothing() {
    let mut model = IsingModel::new(4, InitialCondition::Random, BoundaryCondition::Periodic, SEED);
    let before = model.lattice.clone();
    let mut d = KawasakiDynamics::new(4, coins(0.0, 7), coins(0.0, 2), SEED);
    assert_eq!(d.current_h, vec![0; 3]);
    assert_eq!(d.n_total, 4 * 3 + 16 + 8);
    d.sweep(&mut model);
    assert_eq!(model.lattice, before);
    assert_eq!(d.current_h, vec![0; 3]);
}

#[test]
fn kawasaki_exchanges_keep_the_total_spin() {
    let mut model = IsingModel::new(5, InitialCondition::Instanton, BoundaryCondition::Periodic, SEED);
    let spin = model.total_spin;
    let mut d = KawasakiDynamics::new(5, coins(1.0, 7), coins(0.0, 2), SEED);
    for _ in 0..10 {
        assert!(d.sweep_fits(&model));
        d.sweep(&mut model);
        assert_eq!(model.total_spin, spin);
        assert_eq!(model.total_spin, model.compute_magnetization());
        assert_eq!(model.energy, model.compute_energy_int());
    }
}

#[test]
fn kawasaki_reservoir_struct_new_fills_reservoirs() {
    let d = KawasakiReservoirStructDynamics::new(4, coins(1.0, 7), 100, 70, 30, SEED);
    assert_eq!(d.reservoir_right.len(), 100);
    assert_eq!(count(&d.reservoir_right, 1), 70);
    assert_eq!(count(&d.reservoir_left, 1), 30);
    assert_eq!(count(&d.reservoir_left, -1), 70);
    assert_eq!((d.cursor_left, d.cursor_right), (0, 0));
    assert_eq!(d.current_h, vec![0; 3]);
}

#[test]
fn kawasaki_reservoir_struct_sweeps() {
    let mut model = IsingModel::new(4, InitialCondition::Random, BoundaryCondition::Periodic, SEED);
    let mut d = KawasakiReservoirStructDynamics::new(4, coins(1.0, 7), 50, 50, 0, SEED);
    for _ in 0..10 {
        assert!(d.sweep_fits(&model));
        d.sweep(&mut model);
        assert_eq!(model.energy, model.compute_energy_int());
        assert!(d.cursor_left < 50 && d.cursor_right < 50);
    }
}

#[test]
fn creutz_kawasaki_new_quenched() {
    let d = CreutzKawasakiDynamics::new(
        3,
        8,
        BondSelection::Checkerboard,
        ReservoirType::Quenched,
        coins(0.5, 2),
        100,
        RESERVOIR_SIZE - 100,
        SEED,
    );
    assert_eq!(d.demons_h, vec![8; 9]);
    assert_eq!(d.demons_v, vec![8; 9]);
    assert_eq!(d.current_h, vec![0; 2]);
    assert_eq!(d.n_total, 2 * 9 + 2 * 3);
    assert_eq!(d.reservoir_left.len(), RESERVOIR_SIZE);
    assert_eq!(count(&d.reservoir_left, 1), 100);
    assert_eq!(count(&d.reservoir_right, -1), 100);
    assert!(d.bond_selection == BondSelection::Checkerboard);
    assert!(d.reservoir_type == ReservoirType::Quenched);
}

#[test]
fn creutz_kawasaki_checkerboard_conserves() {
    let mut model = IsingModel::new(6, InitialCondition::Random, BoundaryCondition::Periodic, SEED);
    let mut d = CreutzKawasakiDynamics::new(
        6,
        8,
        BondSelection::Checkerboard,
        ReservoirType::Annealed,
        coins(0.5, 2),
        0,
        0,
        SEED,
    );
    let spin = model.total_spin;
    let demon_sum = |d: &CreutzKawasakiDynamics| -> i32 {
        d.demons_h.iter().sum::<i32>() + d.demons_v.iter().sum::<i32>()
    };
    let total = model.energy + demon_sum(&d);
    for _ in 0..10 {
        d.process_bonds_checkerboard(&mut model);
        assert_eq!(model.energy + demon_sum(&d), total);
        assert_eq!(model.total_spin, spin);
        assert!(d.demons_h.iter().chain(d.demons_v.iter()).all(|&x| x >= 0));
        assert_eq!(model.energy, model.compute_energy_int());
    }
}

#[test]
fn creutz_kawasaki_sweeps_both_selections() {
    for bs in [BondSelection::Random, BondSelection::Checkerboard] {
        for rt in [ReservoirType::Annealed, ReservoirType::Quenched] {
            let mut model =
                IsingModel::new(5, InitialCondition::Random, BoundaryCondition::Periodic, SEED);
            let mut d = CreutzKawasakiDynamics::new(5, 4, bs, rt, coins(0.5, 2), 5000, 5000, SEED);
            for _ in 0..5 {
                assert!(d.sweep_fits(&model));
                d.sweep(&mut model);
                assert_eq!(model.energy, model.compute_energy_int());
                assert!(d.demons_h.iter().chain(d.demons_v.iter()).all(|&x| x >= 0));
            }
        }
    }
}

#[test]
fn creutz_kawasaki_random_sweeps() {
    let mut model = IsingModel::new(5, InitialCondition::Random, BoundaryCondition::Periodic, SEED);
    let mut d = CreutzKawasakiRandomDynamics::new(5, 12, coins(0.0, 2), SEED);
    assert_eq!(d.demons_h, vec![12; 25]);
    let spin = model.total_spin;
    for _ in 0..5 {
        assert!(d.sweep_fits(&model));
        d.sweep(&mut model);
        // With coins that never flip, no reservoir bond changes a spin.
        assert_eq!(model.total_spin, spin);
        assert_eq!(model.energy, model.compute_energy_int());
    }
}

#[test]
fn creutz_thermal_new_takes_demons_from_the_pool() {
    let d = CreutzThermalDynamics::new(
        2,
        vec![0, 4, 8],
        DemonReplacementMode::PerStep,
        BondSelection::Random,
        ReservoirType::Annealed,
        coins(0.5, 2),
        0,
        0,
        SEED,
    );
    assert_eq!(d.demon_pool, vec![0, 4, 8]);
    assert_eq!(d.demons_h, vec![0, 4, 8, 0]);
    assert_eq!(d.demons_v, vec![4, 8, 0, 4]);
    assert_eq!(d.demon_pool_cursor, 2);
    assert_eq!(d.current_h, vec![0]);
    assert!(d.replacement_mode == DemonReplacementMode::PerStep);
}

#[test]
fn creutz_thermal_per_sweep_checkerboard_conserves() {
    let mut model = IsingModel::new(4, InitialCondition::Random, BoundaryCondition::Periodic, SEED);
    let mut d = CreutzThermalDynamics::new(
        4,
        vec![0, 4, 8, 12, 0, 4],
        DemonReplacementMode::PerSweep,
        BondSelection::Checkerboard,
        ReservoirType::Annealed,
        coins(0.5, 2),
        0,
        0,
        SEED,
    );
    let spin = model.total_spin;
    let total = model.energy + d.demons_h.iter().sum::<i32>() + d.demons_v.iter().sum::<i32>();
    d.process_bonds_checkerboard(&mut model);
    assert_eq!(
        model.energy + d.demons_h.iter().sum::<i32>() + d.demons_v.iter().sum::<i32>(),
        total
    );
    assert_eq!(model.total_spin, spin);
}

#[test]
fn creutz_thermal_sweeps_every_mode() {
    for mode in [DemonReplacementMode::PerStep, DemonReplacementMode::PerSweep] {
        for bs in [BondSelection::Random, BondSelection::Checkerboard] {
            let mut model =
                IsingModel::new(4, InitialCondition::Random, BoundaryCondition::Periodic, SEED);
            let pool: Vec<i32> = (0..50).map(|i| 4 * (i % 5)).collect();
            let mut d = CreutzThermalDynamics::new(
                4,
                pool.clone(),
                mode,
                bs,
                ReservoirType::Quenched,
                coins(0.5, 2),
                5000,
                5000,
                SEED,
            );
            for _ in 0..5 {
                assert!(d.sweep_fits(&model));
                d.sweep(&mut model);
                assert_eq!(model.energy, model.compute_energy_int());
                assert!(d.demons_h.iter().chain(d.demons_v.iter()).all(|&x| x >= 0));
                assert!(d.demon_pool_cursor < pool.len());
            }
        }
    }
}

#[test]
fn dynamics_enum_dispatches() {
    let mut model = IsingModel::new(4, InitialCondition::AllUp, BoundaryCondition::Periodic, SEED);
    let mut dynamics = Dynamics::Metropolis(MetropolisDynamics::new(coins(1.0, 5), SEED));
    assert!(dynamics.sweep_fits(&model));
    dynamics.sweep(&mut model);
    assert!(matches!(dynamics, Dynamics::Metropolis(_)));
    assert_eq!(model.energy, model.compute_energy_int());

    let mut dynamics = Dynamics::Kawasaki(KawasakiDynamics::new(4, coins(0.0, 7), coins(0.0, 2), SEED));
    let before = model.lattice.clone();
    dynamics.sweep(&mut model);
    assert_eq!(model.lattice, before);
}

/// The checkerboard order written out directly: horizontal bonds from even,
/// then odd columns; vertical bonds from even, then odd rows.
fn reference_checkerboard(
    model: &mut IsingModel,
    demons_h: &mut Vec<i32>,
    demons_v: &mut Vec<i32>,
    current_h: &mut Vec<i32>,
) {
    let l = model.l;
    for sx in [0, 1] {
        for y in 0..l {
            let mut x = sx;
            while x + 1 < l {
                let a = y * l + x;
                let b = a + 1;
                if model.lattice[a] != model.lattice[b] {
                    let delta = model.swap_energy_delta(a, b);
                    if delta <= demons_h[a] {
                        let s = model.lattice[a];
                        model.swap(a, b, delta);
                        demons_h[a] -= delta;
                        current_h[x] += s;
                    }
                }
                x += 2;
            }
        }
    }
    for sy in [0, 1] {
        let mut y = sy;
        while y < l {
            for x in 0..l {
                let a = y * l + x;
                let b = if y == l - 1 { x } else { a + l };
                if model.lattice[a] != model.lattice[b] {
                    let delta = model.swap_energy_delta(a, b);
                    if delta <= demons_v[a] {
                        model.swap(a, b, delta);
                        demons_v[a] -= delta;
                    }
                }
            }
            y += 2;
        }
    }
}

#[test]
fn creutz_kawasaki_checkerboard_follows_the_bond_order() {
    for l in [2, 3, 4, 5] {
        let mut model = IsingModel::new(l, InitialCondition::Random, BoundaryCondition::Periodic, SEED);
        let mut d = CreutzKawasakiDynamics::new(
            l,
            4,
            BondSelection::Checkerboard,
            ReservoirType::Annealed,
            coins(0.5, 2),
            0,
            0,
            SEED,
        );
        for _ in 0..3 {
            let mut m = IsingModel::new(l, InitialCondition::AllUp, BoundaryCondition::Periodic, SEED);
            m.lattice = model.lattice.clone();
            m.energy = model.energy;
            m.total_spin = model.total_spin;
            let mut dh = d.demons_h.clone();
            let mut dv = d.demons_v.clone();
            let mut cur = d.current_h.clone();
            reference_checkerboard(&mut m, &mut dh, &mut dv, &mut cur);
            d.process_bonds_checkerboard(&mut model);
            assert_eq!(model.lattice, m.lattice);
            assert_eq!(model.energy, m.energy);
            assert_eq!(d.demons_h, dh);
            assert_eq!(d.demons_v, dv);
            assert_eq!(d.current_h, cur);
        }
    }
}

#[test]
fn creutz_thermal_per_sweep_redraws_every_demon() {
    let l = 3;
    let mut model = IsingModel::new(l, InitialCondition::Random, BoundaryCondition::Periodic, SEED);
    let pool: Vec<i32> = (0..7).map(|i| 4 * i).collect();
    let mut d = CreutzThermalDynamics::new(
        l,
        pool,
        DemonReplacementMode::PerSweep,
        BondSelection::Random,
        ReservoirType::Annealed,
        coins(0.5, 2),
        0,
        0,
        SEED,
    );
    for _ in 0..4 {
        let pc = d.demon_pool_cursor;
        d.sweep(&mut model);
        let p = &d.demon_pool;
        let m = p.len();
        let n = l * l;
        for j in 0..n {
            assert_eq!(d.demons_h[j], p[(pc + j) % m]);
            assert_eq!(d.demons_v[j], p[(pc + n + j) % m]);
        }
        assert_eq!(d.demon_pool_cursor, (pc + 2 * n) % m);
    }
}

#[test]
fn creutz_kawasaki_random_bonds_conserve_with_idle_reservoirs() {
    // Annealed reservoir coins that never flip: every bond visit that changes
    // anything is an exchange paid by a demon.
    let mut model = IsingModel::new(5, InitialCondition::Random, BoundaryCondition::Periodic, SEED);
    let mut d = CreutzKawasakiDynamics::new(
        5,
        8,
        BondSelection::Random,
        ReservoirType::Annealed,
        coins(0.0, 2),
        0,
        0,
        SEED,
    );
    let total = model.energy + d.demons_h.iter().sum::<i32>() + d.demons_v.iter().sum::<i32>();
    let spin = model.total_spin;
    for _ in 0..10 {
        d.sweep(&mut model);
        assert_eq!(
            model.energy + d.demons_h.iter().sum::<i32>() + d.demons_v.iter().sum::<i32>(),
            total
        );
        assert_eq!(model.total_spin, spin);
    }
}

#[test]
fn creutz_kawasaki_random_dynamics_conserves_with_idle_reservoirs() {
    let mut model = IsingModel::new(4, InitialCondition::Random, BoundaryCondition::Periodic, SEED);
    let mut d = CreutzKawasakiRandomDynamics::new(4, 4, coins(0.0, 2), SEED);
    let total = model.energy + d.demons_h.iter().sum::<i32>() + d.demons_v.iter().sum::<i32>();
    for _ in 0..10 {
        d.sweep(&mut model);
        assert_eq!(
            model.energy + d.demons_h.iter().sum::<i32>() + d.demons_v.iter().sum::<i32>(),
            total
        );
        assert!(d.demons_h.iter().chain(d.demons_v.iter()).all(|&x| x >= 0));
    }
}

#[test]
fn kawasaki_reservoir_struct_with_empty_reservoirs() {
    let d = KawasakiReservoirStructDynamics::new(3, coins(1.0, 7), 0, 0, 0, SEED);
    assert!(d.reservoir_left.is_empty());
    assert!(d.reservoir_right.is_empty());
    assert_eq!(d.edges.len(), 6 + 9 + 6);
}

#[test]
fn creutz_with_extra_demons_and_no_cap() {
    let mut model = IsingModel::new(4, InitialCondition::Random, BoundaryCondition::Periodic, SEED);
    let mut d = CreutzDynamics::new(4, 3, i32::MAX);
    d.demons.extend([7, 9]);
    let total = model.energy + 4 * d.demons.iter().sum::<i32>();
    for _ in 0..10 {
        let lattice0 = model.lattice.clone();
        let demons0 = d.demons.clone();
        d.sweep(&mut model);
        assert_eq!(model.energy + 4 * d.demons.iter().sum::<i32>(), total);
        assert_eq!(&d.demons[16..], &[7, 9]);
        for i in 0..16 {
            if d.demons[i] != demons0[i] {
                assert_eq!(model.lattice[i], -lattice0[i]);
            }
        }
    }
}

#[test]
fn annealed_reservoirs_are_empty() {
    let d = CreutzKawasakiDynamics::new(
        3,
        8,
        BondSelection::Random,
        ReservoirType::Annealed,
        coins(0.5, 2),
        100,
        100,
        SEED,
    );
    assert!(d.reservoir_left.is_empty());
    assert!(d.reservoir_right.is_empty());
    let t = CreutzThermalDynamics::new(
        3,
        vec![4, 0, 8],
        DemonReplacementMode::PerStep,
        BondSelection::Random,
        ReservoirType::Annealed,
        coins(0.5, 2),
        100,
        100,
        SEED,
    );
    assert!(t.reservoir_left.is_empty() && t.reservoir_right.is_empty());
    assert_eq!(t.demon_pool, vec![4, 0, 8]);
}

#[test]
fn the_same_seed_gives_the_same_lattice() {
    let a = IsingModel::new(6, InitialCondition::Random, BoundaryCondition::Periodic, 42);
    let b = IsingModel::new(6, InitialCondition::Random, BoundaryCondition::Periodic, 42);
    assert_eq!(a.lattice, b.lattice);
}

#[test]
fn metropolis_visit_site_flips_on_heads() {
    let mut model = IsingModel::new(3, InitialCondition::AllUp, BoundaryCondition::Periodic, SEED);
    MetropolisDynamics::visit_site(&mut model, 4, false);
    assert_eq!(model.lattice, vec![1; 9]);
    MetropolisDynamics::visit_site(&mut model, 4, true);
    assert_eq!(model.lattice[4], -1);
    assert_eq!(model.energy, -18 + 8);
}

#[test]
fn kawasaki_visit_bond_exchanges_on_heads() {
    // 3 x 3, site 0 down: bond 0 joins sites 0 and 1.
    let mut model = IsingModel::new(3, InitialCondition::AllUp, BoundaryCondition::Periodic, SEED);
    let d0 = model.flip_energy_delta(0);
    model.flip(0, d0);
    let mut d = KawasakiDynamics::new(3, coins(0.5, 7), coins(0.5, 2), SEED);
    d.visit_bond(&mut model, 0, false);
    assert_eq!(model.lattice[0], -1);
    assert_eq!(d.current_h, vec![0, 0]);
    d.visit_bond(&mut model, 0, true);
    assert_eq!(model.lattice[0], 1);
    assert_eq!(model.lattice[1], -1);
    assert_eq!(d.current_h, vec![-1, 0]);
    assert_eq!(model.energy, model.compute_energy_int());
    // Bond 15 is the left reservoir bond of site 0.
    d.visit_bond(&mut model, 15, true);
    assert_eq!(model.lattice[0], -1);
}

#[test]
fn reservoir_struct_visit_bond_takes_the_reservoir_spin() {
    let mut model = IsingModel::new(3, InitialCondition::AllUp, BoundaryCondition::Periodic, SEED);
    let mut d = KawasakiReservoirStructDynamics::new(3, coins(0.5, 7), 5, 5, 0, SEED);
    // Left reservoir all down: bond 15 sets site 0 down, whatever the coin.
    d.visit_bond(&mut model, 15, false);
    assert_eq!(model.lattice[0], -1);
    assert_eq!(d.cursor_left, 1);
    // Right reservoir all up: bond 16 leaves site 2 up.
    d.visit_bond(&mut model, 16, true);
    assert_eq!(model.lattice[2], 1);
    assert_eq!(d.cursor_right, 1);
}

#[test]
fn demon_visit_bond_pays_from_the_demon() {
    let mut model = IsingModel::new(3, InitialCondition::AllUp, BoundaryCondition::Periodic, SEED);
    let d0 = model.flip_energy_delta(0);
    model.flip(0, d0);
    let mut d = CreutzKawasakiRandomDynamics::new(3, 0, coins(0.5, 2), SEED);
    // Moving the lone down spin from site 0 to site 1 costs nothing.
    assert_eq!(model.swap_energy_delta(0, 1), 0);
    d.visit_bond(&mut model, 0, false);
    assert_eq!(model.lattice[1], -1);
    assert_eq!(d.demons_h[0], 0);
    assert_eq!(d.current_h, vec![-1, 0]);
    let mut c = CreutzKawasakiDynamics::new(
        3,
        0,
        BondSelection::Random,
        ReservoirType::Annealed,
        coins(0.0, 2),
        0,
        0,
        SEED,
    );
    c.visit_bond(&mut model, 1, false);
    assert_eq!(model.lattice[2], -1);
}

#[test]
fn annealed_coupling_flips_on_heads() {
    let mut model = IsingModel::new(3, InitialCondition::AllUp, BoundaryCondition::Periodic, SEED);
    couple_annealed(&mut model, 0, false);
    assert_eq!(model.lattice, vec![1; 9]);
    assert_eq!(model.energy, -18);
    couple_annealed(&mut model, 0, true);
    assert_eq!(model.lattice[0], -1);
    assert_eq!(model.energy, -10);
    assert_eq!(model.total_spin, 7);
    assert_eq!(model.energy, model.compute_energy_int());
}

#[test]
fn annealed_row_coupling_flips_each_end_on_its_coin() {
    let mut model = IsingModel::new(4, InitialCondition::AllUp, BoundaryCondition::Periodic, SEED);
    couple_annealed_row(&mut model, 4, 7, true, false);
    assert_eq!(model.lattice[4], -1);
    assert_eq!(model.lattice[7], 1);
    assert_eq!(model.total_spin, 14);
    couple_annealed_row(&mut model, 8, 11, true, true);
    assert_eq!(model.lattice[8], -1);
    assert_eq!(model.lattice[11], -1);
    assert_eq!(model.total_spin, 10);
    assert_eq!(model.energy, model.compute_energy_int());
    // A 1 x 1 row has one site: two heads flip it back.
    let mut one = IsingModel::new(1, InitialCondition::AllUp, BoundaryCondition::Periodic, SEED);
    couple_annealed_row(&mut one, 0, 0, true, true);
    assert_eq!(one.lattice, vec![1]);
    couple_annealed_row(&mut one, 0, 0, false, true);
    assert_eq!(one.lattice, vec![-1]);
}

#[test]
fn reservoir_bond_coupling_with_a_given_coin() {
    let mut model = IsingModel::new(3, InitialCondition::AllUp, BoundaryCondition::Periodic, SEED);
    let (mut cl, mut cr) = (0usize, 0usize);
    couple_reservoir_bond(&mut model, 2, 1, ReservoirType::Annealed, &[], &[], &mut cl, &mut cr, true);
    assert_eq!(model.lattice[2], -1);
    couple_reservoir_bond(&mut model, 2, 1, ReservoirType::Annealed, &[], &[], &mut cl, &mut cr, false);
    assert_eq!(model.lattice[2], -1);
    assert_eq!((cl, cr), (0, 0));
    // A quenched reservoir takes its next spin, whatever the coin.
    let left = [1, -1];
    couple_reservoir_bond(&mut model, 0, 0, ReservoirType::Quenched, &left, &[1], &mut cl, &mut cr, true);
    assert_eq!(model.lattice[0], 1);
    assert_eq!(cl, 1);
    couple_reservoir_bond(&mut model, 0, 0, ReservoirType::Quenched, &left, &[1], &mut cl, &mut cr, false);
    assert_eq!(model.lattice[0], -1);
    assert_eq!(cl, 0);
    assert_eq!(model.energy, model.compute_energy_int());
}

#[test]
fn demon_reservoir_bond_flips_on_heads() {
    let mut model = IsingModel::new(3, InitialCondition::AllUp, BoundaryCondition::Periodic, SEED);
    let mut c = CreutzKawasakiDynamics::new(
        3,
        0,
        BondSelection::Random,
        ReservoirType::Annealed,
        coins(0.5, 2),
        0,
        0,
        SEED,
    );
    // Bond 15 is the left reservoir bond of site 0.
    c.visit_bond(&mut model, 15, false);
    assert_eq!(model.lattice[0], 1);
    c.visit_bond(&mut model, 15, true);
    assert_eq!(model.lattice[0], -1);
    assert_eq!(model.energy, -10);
    let mut t = CreutzThermalDynamics::new(
        3,
        vec![0, 4],
        DemonReplacementMode::PerStep,
        BondSelection::Random,
        ReservoirType::Annealed,
        coins(0.5, 2),
        0,
        0,
        SEED,
    );
    // Bond 16 is the right reservoir bond of site 2.
    t.visit_bond(&mut model, 16, true);
    assert_eq!(model.lattice[2], -1);
    t.visit_bond(&mut model, 16, false);
    assert_eq!(model.lattice[2], -1);
    assert_eq!(model.energy, model.compute_energy_int());
}
