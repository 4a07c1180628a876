//! Exchanging the opposite spins of the two sites of a bond.

use crate::dynamics::common::{edge_spec, lemma_edge_sites, num_bonds, num_horizontal, num_internal};
use crate::ising_model::IsingModel;
use crate::lattice::{
    exchange_delta, flipped, lemma_flip_delta_bounds, lemma_flip_delta_with_opposite_neighbor,
    lemma_seq_sum_update, lemma_side_fits, seq_sum,
};
use vstd::prelude::*;

verus! {

/// Sites `a` and `b` are joined by a bond of the table: `b` is the right or
/// the bottom neighbour of `a`.
pub open spec fn bonded(model: &IsingModel, a: int, b: int) -> bool {
    0 <= a < model.l * model.l && 0 <= b < model.l * model.l && (b == model.neighbors@[a][1] || b
        == model.neighbors@[a][2])
}

/// `after` and `demons1` are `before` and `demons0` after the demon of `a` was
/// offered the exchange across the bond from `a` to `b`: when it holds at
/// least the exchange delta, the spins were exchanged and the demon paid the
/// delta; otherwise nothing changed.
pub open spec fn demon_exchanged(
    after: IsingModel,
    demons1: Seq<i32>,
    before: IsingModel,
    demons0: Seq<i32>,
    a: int,
    b: int,
) -> bool {
    let delta = exchange_delta(before.lattice@, before.neighbors@, a, b);
    if delta <= demons0[a] {
        &&& after.exchanged_from(&before, a, b)
        &&& demons1 == demons0.update(a, (demons0[a] - delta) as i32)
    } else {
        &&& after.same_as(&before)
        &&& demons1 == demons0
    }
}

/// An exchange offered to a demon keeps the energy of the lattice and the
/// demons together, and leaves the demon holding no less than zero when it
/// held no less than zero before.
pub proof fn lemma_demon_exchange_conserves(
    after: IsingModel,
    demons1: Seq<i32>,
    before: IsingModel,
    demons0: Seq<i32>,
    a: int,
    b: int,
)
    requires
        0 <= a < demons0.len(),
        i32::MIN <= demons0[a] - exchange_delta(before.lattice@, before.neighbors@, a, b) <= i32::MAX,
        demon_exchanged(after, demons1, before, demons0, a, b),
    ensures
        after.energy + seq_sum(demons1) == before.energy + seq_sum(demons0),
        demons0[a] >= 0 ==> demons1[a] >= 0,
{
    let delta = exchange_delta(before.lattice@, before.neighbors@, a, b);
    if delta <= demons0[a] {
        lemma_seq_sum_update(demons0, a, (demons0[a] - delta) as i32);
    }
}

/// Exchanges the opposite spins of the bonded sites `a` and `b` when the
/// demon `demons[a]` can pay the energy change, which it then gives up or,
/// for a negative change, takes in. Returns whether the spins were exchanged.
pub fn demon_exchange(model: &mut IsingModel, demons: &mut Vec<i32>, a: usize, b: usize) -> (exchanged: bool)
    requires
        old(model).wf(),
        bonded(old(model), a as int, b as int),
        old(model).lattice@[a as int] != old(model).lattice@[b as int],
        old(demons)@.len() == old(model).l * old(model).l,
        old(model).energy_room(20),
        old(demons)@[a as int] <= i32::MAX - 12,
    ensures
        final(model).wf(),
        final(model).l == old(model).l,
        final(model).neighbors@ == old(model).neighbors@,
        final(model).total_spin == old(model).total_spin,
        final(demons)@.len() == old(demons)@.len(),
        exchanged == (exchange_delta(old(model).lattice@, old(model).neighbors@, a as int, b as int)
            <= old(demons)@[a as int]),
        exchanged ==> {
            &&& final(model).lattice@ == flipped(flipped(old(model).lattice@, a as int), b as int)
            &&& final(model).energy == old(model).energy + exchange_delta(
                old(model).lattice@,
                old(model).neighbors@,
                a as int,
                b as int,
            )
            &&& final(demons)@ == old(demons)@.update(
                a as int,
                (old(demons)@[a as int] - exchange_delta(
                    old(model).lattice@,
                    old(model).neighbors@,
                    a as int,
                    b as int,
                )) as i32,
            )
        },
        !exchanged ==> final(model).same_as(old(model)) && final(demons)@ == old(demons)@,
        demon_exchanged(*final(model), final(demons)@, *old(model), old(demons)@, a as int, b as int),
        final(model).energy + seq_sum(final(demons)@) == old(model).energy + seq_sum(old(demons)@),
        -12 <= final(model).energy - old(model).energy <= 20,
        0 <= final(demons)@[a as int] <= old(demons)@[a as int] + 12 || final(demons)@[a as int]
            == old(demons)@[a as int],
        forall|i: int| 0 <= i < final(demons)@.len() && i != a ==> #[trigger] final(demons)@[i] == old(demons)@[i],
        old(model).is_periodic() && old(model).l >= 3 && old(model).energy_consistent()
            ==> final(model).energy_consistent(),
{
    let energy_delta = model.swap_energy_delta(a, b);
    if energy_delta <= demons[a] {
        let d = demons[a] - energy_delta;
        model.swap(a, b, energy_delta);
        demons.set(a, d);
        proof {
            lemma_seq_sum_update(old(demons)@, a as int, d);
        }
        true
    } else {
        false
    }
}

/// Exchanging the opposite spins across a bond of the table changes the
/// energy by one of -12, -8, ..., 12.
pub proof fn lemma_bond_exchange_delta(model: &IsingModel, r: int)
    requires
        model.wf(),
        model.l >= 1,
        0 <= r < num_internal(model.l as int),
        model.lattice@[edge_spec(model.l as int, r).0] != model.lattice@[edge_spec(
            model.l as int,
            r,
        ).1],
    ensures
        -12 <= exchange_delta(
            model.lattice@,
            model.neighbors@,
            edge_spec(model.l as int, r).0,
            edge_spec(model.l as int, r).1,
        ) <= 12,
        exchange_delta(
            model.lattice@,
            model.neighbors@,
            edge_spec(model.l as int, r).0,
            edge_spec(model.l as int, r).1,
        ) % 4 == 0,
{
    let l = model.l as int;
    let (a, b) = edge_spec(l, r);
    lemma_side_fits(l);
    assert(num_bonds(l) == num_internal(l) + 2 * l);
    lemma_edge_sites(l, model.neighbors@, r);
    let lat = model.lattice@;
    let nb = model.neighbors@;
    if r < num_horizontal(l) {
        lemma_flip_delta_with_opposite_neighbor(l, lat, nb, a, 1);
        lemma_flip_delta_with_opposite_neighbor(l, lat, nb, b, 3);
    } else {
        lemma_flip_delta_with_opposite_neighbor(l, lat, nb, a, 2);
        lemma_flip_delta_with_opposite_neighbor(l, lat, nb, b, 0);
    }
    lemma_flip_delta_bounds(l, lat, nb, a);
    lemma_flip_delta_bounds(l, lat, nb, b);
}

/// The coin that accepts an exchange with energy change `delta`: coin
/// `delta / 4 + 3` of the seven, for -12, -8, ..., 12.
pub fn swap_coin_index(delta: i32) -> (c: usize)
    requires
        -12 <= delta <= 12,
        delta % 4 == 0,
    ensures
        c == delta / 4 + 3,
        c < 7,
{
    (delta / 4 + 3) as usize
}

} // verus!
