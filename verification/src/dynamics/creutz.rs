//! Creutz's microcanonical dynamics: every site carries a demon whose energy,
//! counted in units of 4, pays for the flips of its site and is paid by them.

use crate::ising_model::{BoundaryCondition, IsingModel};
use crate::lattice::{
    bottom_of, flip_delta, flipped, grid_neighbors, left_of, neighbor_sum, lemma_seq_sum_update, lemma_side_fits,
    lemma_site_row_col, lemma_site_split, neighbor_table, right_of, seq_sum, side_fits,
    spins_valid, top_of,
};
use vstd::prelude::*;

verus! {

/// One demon per site, each holding an energy in units of 4, never below 0
/// nor above `max_demon`.
pub struct CreutzDynamics {
    pub demons: Vec<i32>,
    pub max_demon: i32,
}

/// The lattice, the demons and the stored energy of a Creutz pass.
pub type CreutzState = (Seq<i32>, Seq<i32>, int);

/// Site `idx` tries to flip: it does when its demon, paying a quarter of the
/// flip delta, keeps an energy in `0 ..= max_demon`.
pub open spec fn creutz_site(
    st: CreutzState,
    nb: Seq<[usize; 4]>,
    max_demon: int,
    idx: int,
) -> CreutzState {
    let delta = flip_delta(st.0, nb, idx);
    let new_demon = st.1[idx] - delta / 4;
    if 0 <= new_demon <= max_demon {
        (flipped(st.0, idx), st.1.update(idx, new_demon as i32), st.2 + delta)
    } else {
        st
    }
}

/// Site `idx` lies on the sublattice `parity`: its row and column add up to
/// an even number for parity 0 and an odd one for parity 1.
pub open spec fn on_parity(l: int, idx: int, parity: int) -> bool {
    (idx % l + idx / l) % 2 == parity
}

/// The sites `0 .. n` of sublattice `parity` try to flip, in order.
pub open spec fn creutz_pass(
    l: int,
    nb: Seq<[usize; 4]>,
    max_demon: int,
    st: CreutzState,
    parity: int,
    n: int,
) -> CreutzState
    decreases n,
{
    if n <= 0 {
        st
    } else {
        let prev = creutz_pass(l, nb, max_demon, st, parity, n - 1);
        if on_parity(l, n - 1, parity) {
            creutz_site(prev, nb, max_demon, n - 1)
        } else {
            prev
        }
    }
}

/// A sweep: the even sublattice, then the odd one.
pub open spec fn creutz_sweep(
    l: int,
    nb: Seq<[usize; 4]>,
    max_demon: int,
    st: CreutzState,
) -> CreutzState {
    creutz_pass(l, nb, max_demon, creutz_pass(l, nb, max_demon, st, 0, l * l), 1, l * l)
}

/// The demons of the sites `0 .. n` that lie on sublattice `parity` leave
/// room for a quarter flip delta either way.
pub open spec fn demons_have_room(l: int, demons: Seq<i32>, parity: int, n: int) -> bool {
    forall|i: int|
        0 <= i < n && on_parity(l, i, parity) ==> i32::MIN + 2 <= #[trigger] demons[i] <= i32::MAX
            - 2
}

/// What one site's try keeps: spins, the sum of the stored energy and four
/// times the demon energies, every other site and demon, and, when it held,
/// every demon in `0 ..= max_demon`; the site itself either stays with its
/// demon or flips, its demon then in `0 ..= max_demon`.
pub proof fn lemma_creutz_site_keeps(
    l: int,
    nb: Seq<[usize; 4]>,
    max_demon: int,
    st: CreutzState,
    idx: int,
)
    requires
        side_fits(l),
        grid_neighbors(l, nb),
        st.0.len() == l * l,
        st.1.len() >= l * l,
        spins_valid(st.0),
        0 <= idx < l * l,
        max_demon <= i32::MAX,
    ensures
        ({
            let next = creutz_site(st, nb, max_demon, idx);
            &&& next.0.len() == l * l
            &&& next.1.len() == st.1.len()
            &&& spins_valid(next.0)
            &&& next.2 + 4 * seq_sum(next.1) == st.2 + 4 * seq_sum(st.1)
            &&& forall|i: int| 0 <= i < st.1.len() && i != idx ==> #[trigger] next.1[i] == st.1[i]
            &&& forall|i: int| 0 <= i < l * l && i != idx ==> #[trigger] next.0[i] == st.0[i]
            &&& (next.0[idx] == st.0[idx] && next.1[idx] == st.1[idx]) || (next.0[idx] == -st.0[idx]
                && 0 <= next.1[idx] <= max_demon)
            &&& (forall|i: int| 0 <= i < st.1.len() ==> 0 <= #[trigger] st.1[i] <= max_demon) ==> (
            forall|i: int| 0 <= i < st.1.len() ==> 0 <= #[trigger] next.1[i] <= max_demon)
            &&& -8 <= next.2 - st.2 <= 8
        }),
{
    let delta = flip_delta(st.0, nb, idx);
    let new_demon = st.1[idx] - delta / 4;
    assert(nb[idx][0] < l * l && nb[idx][1] < l * l && nb[idx][2] < l * l && nb[idx][3] < l * l);
    let lat = st.0;
    let a = lat[nb[idx][0] as int];
    let b = lat[nb[idx][1] as int];
    let c = lat[nb[idx][2] as int];
    let d = lat[nb[idx][3] as int];
    assert(a == 1 || a == -1);
    assert(b == 1 || b == -1);
    assert(c == 1 || c == -1);
    assert(d == 1 || d == -1);
    if lat[idx] == 1 {
        assert(delta == 2 * (a + b + c + d));
    } else {
        assert(delta == -2 * (a + b + c + d));
    }
    assert(-8 <= delta <= 8 && delta % 4 == 0);
    let next = creutz_site(st, nb, max_demon, idx);
    if 0 <= new_demon <= max_demon {
        lemma_seq_sum_update(st.1, idx, new_demon as i32);
        assert(4 * (delta / 4) == delta);
        assert(next.2 + 4 * seq_sum(next.1) == st.2 + 4 * seq_sum(st.1));
        assert(spins_valid(next.0));
        assert(next.1[idx] == new_demon);
        assert(next.0[idx] == -st.0[idx]);
        assert forall|i: int| 0 <= i < l * l && i != idx implies #[trigger] next.0[i] == st.0[i] by {}
    } else {
        assert(next == st);
    }
}

/// On a periodic lattice of even side the four neighbours of a site lie on
/// the other sublattice.
proof fn lemma_neighbors_other_parity(l: int, nb: Seq<[usize; 4]>, idx: int, k: int)
    requires
        l >= 2,
        l % 2 == 0,
        neighbor_table(l, BoundaryCondition::Periodic, nb),
        grid_neighbors(l, nb),
        0 <= idx < l * l,
        0 <= k < 4,
    ensures
        0 <= nb[idx][k] < l * l,
        on_parity(l, nb[idx][k] as int, 0) == !on_parity(l, idx, 0),
{
    assert(nb[idx][0] < l * l && nb[idx][1] < l * l && nb[idx][2] < l * l && nb[idx][3] < l * l);
    lemma_site_split(l, idx);
    let y = idx / l;
    let x = idx % l;
    lemma_site_row_col(l, y, x);
    assert(l * l == (l - 1) * l + l) by (nonlinear_arith);
    assert(nb[idx][0] == top_of(l, idx));
    assert(nb[idx][1] == right_of(l, BoundaryCondition::Periodic, idx));
    assert(nb[idx][2] == bottom_of(l, idx));
    assert(nb[idx][3] == left_of(l, BoundaryCondition::Periodic, idx));
    if k == 0 {
        if y == 0 {
            lemma_site_row_col(l, l - 1, x);
            assert(top_of(l, idx) == (l - 1) * l + x);
        } else {
            lemma_site_row_col(l, y - 1, x);
            assert((y - 1) * l + x == idx - l) by (nonlinear_arith)
                requires
                    idx == y * l + x,
            ;
        }
    } else if k == 2 {
        if y == l - 1 {
            lemma_site_row_col(l, 0, x);
            assert(idx + l - l * l == x) by (nonlinear_arith)
                requires
                    idx == y * l + x,
                    y == l - 1,
            ;
        } else {
            lemma_site_row_col(l, y + 1, x);
            assert((y + 1) * l + x == idx + l) by (nonlinear_arith)
                requires
                    idx == y * l + x,
            ;
            assert(idx + l < l * l) by (nonlinear_arith)
                requires
                    idx == y * l + x,
                    0 <= y < l - 1,
                    0 <= x < l,
                    l > 0,
            ;
        }
    } else if k == 1 {
        if x == l - 1 {
            lemma_site_row_col(l, y, 0);
        } else {
            lemma_site_row_col(l, y, x + 1);
        }
    } else {
        if x == 0 {
            lemma_site_row_col(l, y, l - 1);
            assert((y + 1) * l - 1 == y * l + (l - 1)) by (nonlinear_arith);
        } else {
            lemma_site_row_col(l, y, x - 1);
        }
    }
}

/// Law: a Creutz pass conserves the stored energy plus four times the total
/// demon energy, keeps every spin a spin, and keeps the demons in
/// `0 ..= max_demon` once they are there. It visits each site of the pass
/// once: a site it has not reached, or that is not on its sublattice, keeps
/// its spin and its demon, and a site that it reached either kept both or
/// flipped, its demon then in `0 ..= max_demon`.
pub proof fn lemma_creutz_pass_keeps(
    l: int,
    nb: Seq<[usize; 4]>,
    max_demon: int,
    st: CreutzState,
    parity: int,
    n: int,
)
    requires
        side_fits(l),
        grid_neighbors(l, nb),
        st.0.len() == l * l,
        st.1.len() >= l * l,
        spins_valid(st.0),
        0 <= n <= l * l,
        max_demon <= i32::MAX,
    ensures
        ({
            let next = creutz_pass(l, nb, max_demon, st, parity, n);
            &&& next.0.len() == l * l
            &&& next.1.len() == st.1.len()
            &&& spins_valid(next.0)
            &&& next.2 + 4 * seq_sum(next.1) == st.2 + 4 * seq_sum(st.1)
            &&& forall|i: int|
                0 <= i < st.1.len() && !(i < n && on_parity(l, i, parity)) ==> #[trigger] next.1[i]
                    == st.1[i]
            &&& forall|i: int|
                0 <= i < l * l && !(i < n && on_parity(l, i, parity)) ==> #[trigger] next.0[i]
                    == st.0[i]
            &&& forall|i: int|
                0 <= i < l * l ==> (next.0[i] == st.0[i] && #[trigger] next.1[i] == st.1[i]) || (
                next.0[i] == -st.0[i] && 0 <= next.1[i] <= max_demon)
            &&& (forall|i: int| 0 <= i < st.1.len() ==> 0 <= #[trigger] st.1[i] <= max_demon) ==> (
            forall|i: int| 0 <= i < st.1.len() ==> 0 <= #[trigger] next.1[i] <= max_demon)
            &&& -8 * n <= next.2 - st.2 <= 8 * n
        }),
    decreases n,
{
    if n > 0 {
        lemma_creutz_pass_keeps(l, nb, max_demon, st, parity, n - 1);
        let prev = creutz_pass(l, nb, max_demon, st, parity, n - 1);
        if on_parity(l, n - 1, parity) {
            lemma_creutz_site_keeps(l, nb, max_demon, prev, n - 1);
            let next = creutz_site(prev, nb, max_demon, n - 1);
            assert forall|i: int| 0 <= i < l * l implies (next.0[i] == st.0[i] && #[trigger] next.1[i]
                == st.1[i]) || (next.0[i] == -st.0[i] && 0 <= next.1[i] <= max_demon) by {
                if i == n - 1 {
                    assert(prev.1[i] == st.1[i] && prev.0[i] == st.0[i]);
                } else {
                    assert(next.1[i] == prev.1[i] && next.0[i] == prev.0[i]);
                    assert((prev.0[i] == st.0[i] && prev.1[i] == st.1[i]) || (prev.0[i] == -st.0[i]
                        && 0 <= prev.1[i] <= max_demon));
                }
            }
        }
    }
}

/// Once a pass has gone beyond site `idx`, the later sites leave its spin and
/// its demon alone.
proof fn lemma_creutz_pass_settled(
    l: int,
    nb: Seq<[usize; 4]>,
    max_demon: int,
    st: CreutzState,
    parity: int,
    m: int,
    n: int,
    idx: int,
)
    requires
        side_fits(l),
        grid_neighbors(l, nb),
        st.0.len() == l * l,
        st.1.len() >= l * l,
        spins_valid(st.0),
        max_demon <= i32::MAX,
        0 <= idx < m <= n <= l * l,
    ensures
        creutz_pass(l, nb, max_demon, st, parity, n).0[idx] == creutz_pass(
            l,
            nb,
            max_demon,
            st,
            parity,
            m,
        ).0[idx],
        creutz_pass(l, nb, max_demon, st, parity, n).1[idx] == creutz_pass(
            l,
            nb,
            max_demon,
            st,
            parity,
            m,
        ).1[idx],
    decreases n,
{
    if n > m {
        lemma_creutz_pass_settled(l, nb, max_demon, st, parity, m, n - 1, idx);
        let prev = creutz_pass(l, nb, max_demon, st, parity, n - 1);
        lemma_creutz_pass_keeps(l, nb, max_demon, st, parity, n - 1);
        if on_parity(l, n - 1, parity) {
            lemma_creutz_site_keeps(l, nb, max_demon, prev, n - 1);
        }
    }
}

/// What a pass over sublattice `parity` does to one of its sites: its
/// neighbours lie on the other sublattice, so it is judged on the starting
/// lattice.
proof fn lemma_creutz_pass_site(
    l: int,
    nb: Seq<[usize; 4]>,
    max_demon: int,
    st: CreutzState,
    parity: int,
    idx: int,
)
    requires
        side_fits(l),
        l >= 2,
        l % 2 == 0,
        neighbor_table(l, BoundaryCondition::Periodic, nb),
        grid_neighbors(l, nb),
        st.0.len() == l * l,
        st.1.len() >= l * l,
        spins_valid(st.0),
        max_demon <= i32::MAX,
        0 <= idx < l * l,
        on_parity(l, idx, parity),
        parity == 0 || parity == 1,
    ensures
        ({
            let paid = st.1[idx] - flip_delta(st.0, nb, idx) / 4;
            let next = creutz_pass(l, nb, max_demon, st, parity, l * l);
            &&& next.0[idx] == if 0 <= paid <= max_demon {
                -st.0[idx]
            } else {
                st.0[idx] as int
            }
            &&& next.1[idx] == if 0 <= paid <= max_demon {
                paid
            } else {
                st.1[idx] as int
            }
        }),
{
    let prev = creutz_pass(l, nb, max_demon, st, parity, idx);
    lemma_creutz_pass_keeps(l, nb, max_demon, st, parity, idx);
    lemma_neighbors_other_parity(l, nb, idx, 0);
    lemma_neighbors_other_parity(l, nb, idx, 1);
    lemma_neighbors_other_parity(l, nb, idx, 2);
    lemma_neighbors_other_parity(l, nb, idx, 3);
    assert(prev.0[idx] == st.0[idx] && prev.1[idx] == st.1[idx]);
    assert(prev.0[nb[idx][0] as int] == st.0[nb[idx][0] as int]);
    assert(prev.0[nb[idx][1] as int] == st.0[nb[idx][1] as int]);
    assert(prev.0[nb[idx][2] as int] == st.0[nb[idx][2] as int]);
    assert(prev.0[nb[idx][3] as int] == st.0[nb[idx][3] as int]);
    assert(flip_delta(prev.0, nb, idx) == flip_delta(st.0, nb, idx));
    lemma_creutz_pass_settled(l, nb, max_demon, st, parity, idx + 1, l * l, idx);
}

/// What a sweep does to one site, judged for an even site on the starting
/// lattice and for an odd site on its own starting spin against its
/// neighbours' final spins (see `lemma_creutz_sweep_sites`).
proof fn lemma_creutz_sweep_site(
    l: int,
    nb: Seq<[usize; 4]>,
    max_demon: int,
    st: CreutzState,
    idx: int,
)
    requires
        side_fits(l),
        l >= 2,
        l % 2 == 0,
        neighbor_table(l, BoundaryCondition::Periodic, nb),
        grid_neighbors(l, nb),
        st.0.len() == l * l,
        st.1.len() >= l * l,
        spins_valid(st.0),
        max_demon <= i32::MAX,
        0 <= idx < l * l,
    ensures
        ({
            let next = creutz_sweep(l, nb, max_demon, st);
            let delta = if on_parity(l, idx, 0) {
                flip_delta(st.0, nb, idx)
            } else {
                2 * (st.0[idx] * neighbor_sum(next.0, nb, idx))
            };
            let paid = st.1[idx] - delta / 4;
            &&& next.0[idx] == if 0 <= paid <= max_demon {
                -st.0[idx]
            } else {
                st.0[idx] as int
            }
            &&& next.1[idx] == if 0 <= paid <= max_demon {
                paid
            } else {
                st.1[idx] as int
            }
        }),
{
    let p0 = creutz_pass(l, nb, max_demon, st, 0, l * l);
    let next = creutz_pass(l, nb, max_demon, p0, 1, l * l);
    lemma_creutz_pass_keeps(l, nb, max_demon, st, 0, l * l);
    lemma_creutz_pass_keeps(l, nb, max_demon, p0, 1, l * l);
    if on_parity(l, idx, 0) {
        lemma_creutz_pass_site(l, nb, max_demon, st, 0, idx);
        assert(!on_parity(l, idx, 1));
    } else {
        assert(on_parity(l, idx, 1));
        lemma_creutz_pass_site(l, nb, max_demon, p0, 1, idx);
        assert(p0.0[idx] == st.0[idx] && p0.1[idx] == st.1[idx]);
        lemma_neighbors_other_parity(l, nb, idx, 0);
        lemma_neighbors_other_parity(l, nb, idx, 1);
        lemma_neighbors_other_parity(l, nb, idx, 2);
        lemma_neighbors_other_parity(l, nb, idx, 3);
        assert(next.0[nb[idx][0] as int] == p0.0[nb[idx][0] as int]);
        assert(next.0[nb[idx][1] as int] == p0.0[nb[idx][1] as int]);
        assert(next.0[nb[idx][2] as int] == p0.0[nb[idx][2] as int]);
        assert(next.0[nb[idx][3] as int] == p0.0[nb[idx][3] as int]);
        assert(flip_delta(p0.0, nb, idx) == 2 * (st.0[idx] * neighbor_sum(next.0, nb, idx)));
    }
}

/// Law: on a periodic lattice of even side, a sweep tries each site once
/// and flips it exactly when its demon, paying a quarter of the site's flip
/// delta at its turn, keeps an energy in `0 ..= max_demon`, the demon then
/// holding that energy; otherwise the site keeps its spin and its demon. An
/// even site's turn comes on the starting lattice; an odd site's turn comes
/// after the even sites, so its delta is its starting spin against its
/// neighbours' final spins. In particular a site whose flip costs nothing
/// flips whenever its demon lies in `0 ..= max_demon`.
#[verifier::spinoff_prover]
pub proof fn lemma_creutz_sweep_sites(l: int, nb: Seq<[usize; 4]>, max_demon: int, st: CreutzState)
    requires
        side_fits(l),
        l >= 2,
        l % 2 == 0,
        neighbor_table(l, BoundaryCondition::Periodic, nb),
        grid_neighbors(l, nb),
        st.0.len() == l * l,
        st.1.len() >= l * l,
        spins_valid(st.0),
        max_demon <= i32::MAX,
    ensures
        forall|idx: int|
            #![trigger creutz_sweep(l, nb, max_demon, st).0[idx]]
            0 <= idx < l * l ==> {
                let next = creutz_sweep(l, nb, max_demon, st);
                let delta = if on_parity(l, idx, 0) {
                    flip_delta(st.0, nb, idx)
                } else {
                    2 * (st.0[idx] * neighbor_sum(next.0, nb, idx))
                };
                let paid = st.1[idx] - delta / 4;
                &&& next.0[idx] == if 0 <= paid <= max_demon {
                    -st.0[idx]
                } else {
                    st.0[idx] as int
                }
                &&& next.1[idx] == if 0 <= paid <= max_demon {
                    paid
                } else {
                    st.1[idx] as int
                }
            },
{
    assert forall|idx: int|
        #![trigger creutz_sweep(l, nb, max_demon, st).0[idx]]
        0 <= idx < l * l implies {
            let next = creutz_sweep(l, nb, max_demon, st);
            let delta = if on_parity(l, idx, 0) {
                flip_delta(st.0, nb, idx)
            } else {
                2 * (st.0[idx] * neighbor_sum(next.0, nb, idx))
            };
            let paid = st.1[idx] - delta / 4;
            &&& next.0[idx] == if 0 <= paid <= max_demon {
                -st.0[idx]
            } else {
                st.0[idx] as int
            }
            &&& next.1[idx] == if 0 <= paid <= max_demon {
                paid
            } else {
                st.1[idx] as int
            }
        } by {
        lemma_creutz_sweep_site(l, nb, max_demon, st, idx);
    }
}

impl CreutzDynamics {
    /// `l * l` demons, each holding `initial_demon_energy`, none allowed to
    /// hold more than `max_demon`.
    pub fn new(l: usize, initial_demon_energy: i32, max_demon: i32) -> (d: Self)
        requires
            l * l <= usize::MAX,
        ensures
            d.demons@ == Seq::new((l * l) as nat, |i: int| initial_demon_energy),
            d.max_demon == max_demon,
    {
        let n = l * l;
        let demons = vec![initial_demon_energy; n];
        assert(demons@ =~= Seq::new((l * l) as nat, |i: int| initial_demon_energy));
        Self { demons, max_demon }
    }

    /// Site `idx` tries to flip: with `delta` its flip delta, its demon would
    /// hold `demons[idx] - delta / 4` afterwards. The site flips, its demon
    /// taking that energy, exactly when it lies in `0 ..= max_demon`;
    /// otherwise nothing changes.
    pub fn visit_site(&mut self, model: &mut IsingModel, idx: usize)
        requires
            old(model).wf(),
            idx < old(model).l * old(model).l,
            old(self).demons@.len() >= old(model).l * old(model).l,
            i32::MIN + 2 <= old(self).demons@[idx as int] <= i32::MAX - 2,
            old(model).energy_room(8),
        ensures
            ({
                let delta = flip_delta(old(model).lattice@, old(model).neighbors@, idx as int);
                let paid = old(self).demons@[idx as int] - delta / 4;
                &&& 0 <= paid <= old(self).max_demon ==> {
                    &&& final(model).flipped_from(old(model), idx as int)
                    &&& final(self).demons@ == old(self).demons@.update(idx as int, paid as i32)
                }
                &&& !(0 <= paid <= old(self).max_demon) ==> {
                    &&& final(model).same_as(old(model))
                    &&& final(self).demons@ == old(self).demons@
                }
            }),
            (final(model).lattice@, final(self).demons@, final(model).energy as int) == creutz_site(
                (old(model).lattice@, old(self).demons@, old(model).energy as int),
                old(model).neighbors@,
                old(self).max_demon as int,
                idx as int,
            ),
            final(model).wf(),
            final(model).l == old(model).l,
            final(model).neighbors@ == old(model).neighbors@,
            final(self).max_demon == old(self).max_demon,
            old(model).is_periodic() && old(model).l >= 2 && old(model).energy_consistent()
                ==> final(model).energy_consistent(),
    {
        let delta_h = model.flip_energy_delta(idx);
        let new_demon = self.demons[idx] - delta_h / 4;
        if new_demon >= 0 && new_demon <= self.max_demon {
            model.flip(idx, delta_h);
            self.demons.set(idx, new_demon);
        }
    }

    /// The sites of sublattice `parity` try to flip, row by row.
    fn half_sweep(&mut self, model: &mut IsingModel, parity: usize)
        requires
            old(model).wf(),
            parity <= 1,
            old(self).demons@.len() >= old(model).l * old(model).l,
            demons_have_room(
                old(model).l as int,
                old(self).demons@,
                parity as int,
                old(model).l * old(model).l,
            ),
            old(model).energy_room(8 * old(model).l * old(model).l),
        ensures
            final(model).wf(),
            final(model).l == old(model).l,
            final(model).neighbors@ == old(model).neighbors@,
            final(self).max_demon == old(self).max_demon,
            (final(model).lattice@, final(self).demons@, final(model).energy as int) == creutz_pass(
                old(model).l as int,
                old(model).neighbors@,
                old(self).max_demon as int,
                (old(model).lattice@, old(self).demons@, old(model).energy as int),
                parity as int,
                old(model).l * old(model).l,
            ),
            old(model).is_periodic() && old(model).l >= 2 && old(model).energy_consistent()
                ==> final(model).energy_consistent(),
    {
        let l = model.l;
        let ghost li = l as int;
        let ghost nb = model.neighbors@;
        let ghost max_demon = self.max_demon as int;
        let ghost st0 = (model.lattice@, self.demons@, model.energy as int);
        let ghost periodic0 = model.is_periodic() && l >= 2 && model.energy_consistent();
        proof {
            lemma_side_fits(li);
            assert(8 * l * l == 8 * (l * l)) by (nonlinear_arith);
        }
        let mut y: usize = 0;
        while y < l
            invariant
                model.wf(),
                model.l == l,
                li == l,
                side_fits(li),
                model.neighbors@ == nb,
                self.max_demon == max_demon,
                parity <= 1,
                st0.0.len() == l * l,
                st0.1.len() >= l * l,
                spins_valid(st0.0),
                demons_have_room(li, st0.1, parity as int, l * l),
                i32::MIN + 8 * (l * l) <= st0.2 <= i32::MAX - 8 * (l * l),
                0 <= y <= l,
                y * l <= l * l,
                (model.lattice@, self.demons@, model.energy as int) == creutz_pass(
                    li,
                    nb,
                    max_demon,
                    st0,
                    parity as int,
                    y * l,
                ),
                periodic0 ==> model.is_periodic() && l >= 2 && model.energy_consistent(),
            decreases l - y,
        {
            proof {
                assert((y + 1) * l == y * l + l) by (nonlinear_arith);
                assert(y * l + l <= l * l) by (nonlinear_arith)
                    requires
                        y < l,
                ;
            }
            let mut x: usize = 0;
            while x < l
                invariant
                    model.wf(),
                    model.l == l,
                    li == l,
                    side_fits(li),
                    model.neighbors@ == nb,
                    self.max_demon == max_demon,
                    parity <= 1,
                    st0.0.len() == l * l,
                    st0.1.len() >= l * l,
                    spins_valid(st0.0),
                    demons_have_room(li, st0.1, parity as int, l * l),
                    i32::MIN + 8 * (l * l) <= st0.2 <= i32::MAX - 8 * (l * l),
                    0 <= y < l,
                    0 <= x <= l,
                    y * l + l <= l * l,
                    (model.lattice@, self.demons@, model.energy as int) == creutz_pass(
                        li,
                        nb,
                        max_demon,
                        st0,
                        parity as int,
                        y * l + x,
                    ),
                    periodic0 ==> model.is_periodic() && l >= 2 && model.energy_consistent(),
                decreases l - x,
            {
                let ghost n = y * l + x;
                proof {
                    lemma_site_row_col(li, y as int, x as int);
                    lemma_creutz_pass_keeps(li, nb, max_demon, st0, parity as int, n as int);
                    assert(8 * n <= 8 * (l * l));
                }
                if (x + y) % 2 == parity {
                    let idx = y * l + x;
                    proof {
                        assert(on_parity(li, idx as int, parity as int));
                        assert(self.demons@[idx as int] == st0.1[idx as int]);
                    }
                    self.visit_site(model, idx);
                }
                x = x + 1;
            }
            y = y + 1;
        }
    }

    /// `demons` and `lattice`, after a sweep from `demons0` and `lattice0`:
    /// each site was visited once, so it either kept its spin and its demon,
    /// or flipped, its demon then in `0 ..= max_demon`; the demons beyond the
    /// sites are kept.
    pub open spec fn visited_once(
        lattice: Seq<i32>,
        demons: Seq<i32>,
        lattice0: Seq<i32>,
        demons0: Seq<i32>,
        n: int,
        max_demon: int,
    ) -> bool {
        &&& forall|i: int|
            0 <= i < n ==> (lattice[i] == lattice0[i] && #[trigger] demons[i] == demons0[i]) || (
            lattice[i] == -lattice0[i] && 0 <= demons[i] <= max_demon)
        &&& forall|i: int| n <= i < demons0.len() ==> #[trigger] demons[i] == demons0[i]
    }

    /// One sweep: the even sublattice, then the odd one. Each site tries to
    /// flip once, its demon paying or taking a quarter of the flip delta.
    pub fn sweep(&mut self, model: &mut IsingModel)
        requires
            old(model).wf(),
            old(self).demons@.len() >= old(model).l * old(model).l,
            forall|i: int|
                0 <= i < old(model).l * old(model).l ==> i32::MIN + 2 <= #[trigger] old(
                    self,
                ).demons@[i] <= i32::MAX - 2,
            old(model).energy_room(16 * old(model).l * old(model).l),
        ensures
            final(model).wf(),
            final(model).l == old(model).l,
            final(model).neighbors@ == old(model).neighbors@,
            final(self).max_demon == old(self).max_demon,
            final(self).demons@.len() == old(self).demons@.len(),
            (final(model).lattice@, final(self).demons@, final(model).energy as int)
                == creutz_sweep(
                old(model).l as int,
                old(model).neighbors@,
                old(self).max_demon as int,
                (old(model).lattice@, old(self).demons@, old(model).energy as int),
            ),
            final(model).energy + 4 * seq_sum(final(self).demons@) == old(model).energy + 4
                * seq_sum(old(self).demons@),
            Self::visited_once(
                final(model).lattice@,
                final(self).demons@,
                old(model).lattice@,
                old(self).demons@,
                old(model).l * old(model).l,
                old(self).max_demon as int,
            ),
            (forall|i: int|
                0 <= i < old(self).demons@.len() ==> 0 <= #[trigger] old(self).demons@[i]
                    <= old(self).max_demon) ==> (forall|i: int|
                0 <= i < final(self).demons@.len() ==> 0 <= #[trigger] final(self).demons@[i]
                    <= final(self).max_demon),
            old(model).is_periodic() && old(model).l >= 2 && old(model).l % 2 == 0 ==> forall|
                idx: int,
            |
                #![trigger final(model).lattice@[idx]]
                0 <= idx < old(model).l * old(model).l ==> {
                    let delta = if on_parity(old(model).l as int, idx, 0) {
                        flip_delta(old(model).lattice@, old(model).neighbors@, idx)
                    } else {
                        2 * (old(model).lattice@[idx] * neighbor_sum(
                            final(model).lattice@,
                            old(model).neighbors@,
                            idx,
                        ))
                    };
                    let paid = old(self).demons@[idx] - delta / 4;
                    &&& final(model).lattice@[idx] == if 0 <= paid <= old(self).max_demon {
                        -old(model).lattice@[idx]
                    } else {
                        old(model).lattice@[idx] as int
                    }
                    &&& final(self).demons@[idx] == if 0 <= paid <= old(self).max_demon {
                        paid
                    } else {
                        old(self).demons@[idx] as int
                    }
                },
            old(model).is_periodic() && old(model).l >= 2 && old(model).energy_consistent()
                ==> final(model).energy_consistent(),
    {
        let ghost li = model.l as int;
        let ghost nb = model.neighbors@;
        let ghost st0 = (model.lattice@, self.demons@, model.energy as int);
        let ghost max_demon = self.max_demon as int;
        proof {
            lemma_side_fits(li);
            assert(16 * li * li == 16 * (li * li)) by (nonlinear_arith);
            assert(8 * li * li == 8 * (li * li)) by (nonlinear_arith);
            lemma_creutz_pass_keeps(li, nb, max_demon, st0, 0, li * li);
        }
        self.half_sweep(model, 0);
        let ghost st1 = (model.lattice@, self.demons@, model.energy as int);
        proof {
            lemma_creutz_pass_keeps(li, nb, max_demon, st1, 1, li * li);
            assert forall|i: int| 0 <= i < li * li && on_parity(li, i, 1) implies i32::MIN + 2
                <= #[trigger] st1.1[i] <= i32::MAX - 2 by {
                assert(!on_parity(li, i, 0));
                assert(st1.1[i] == st0.1[i]);
            }
        }
        self.half_sweep(model, 1);
        proof {
            let st2 = (model.lattice@, self.demons@, model.energy as int);
            assert forall|i: int| 0 <= i < li * li implies (st2.0[i] == st0.0[i] && #[trigger] st2.1[i]
                == st0.1[i]) || (st2.0[i] == -st0.0[i] && 0 <= st2.1[i] <= max_demon) by {
                if on_parity(li, i, 0) {
                    assert(!on_parity(li, i, 1));
                    assert(st2.1[i] == st1.1[i] && st2.0[i] == st1.0[i]);
                } else {
                    assert(on_parity(li, i, 1));
                    let p0 = creutz_pass(li, nb, max_demon, st0, 0, li * li);
                    assert(p0.1[i] == st0.1[i] && p0.0[i] == st0.0[i]);
                    let p1 = creutz_pass(li, nb, max_demon, st1, 1, li * li);
                    assert((p1.0[i] == st1.0[i] && p1.1[i] == st1.1[i]) || (p1.0[i] == -st1.0[i]
                        && 0 <= p1.1[i] <= max_demon));
                }
            }
            assert forall|i: int| li * li <= i < st0.1.len() implies #[trigger] st2.1[i] == st0.1[i] by {
                assert(st2.1[i] == st1.1[i]);
            }
            if model.is_periodic() && li >= 2 && li % 2 == 0 {
                lemma_creutz_sweep_sites(li, nb, max_demon, st0);
                let sw = creutz_sweep(li, nb, max_demon, st0);
                assert(st2 == sw);
                assert forall|idx: int| 0 <= idx < li * li implies #[trigger] model.lattice@[idx]
                    == sw.0[idx] && self.demons@[idx] == sw.1[idx] by {
                    assert(sw.0[idx] == creutz_sweep(li, nb, max_demon, st0).0[idx]);
                }
            }
        }
    }
}

} // verus!
