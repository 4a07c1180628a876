//! Kawasaki spin exchange at an inverse temperature: a randomly drawn bond
//! exchanges its opposite spins with the Metropolis probability of the energy
//! change, and a randomly drawn reservoir bond flips its boundary site with a
//! probability set by the reservoir's magnetisation.

use crate::dynamics::common::{
    all_within, build_edges, edge_spec, edges_built, entries_within, lemma_edge_sites,
    lemma_exchange_keeps_spin, lemma_seqs_near_trans, lemma_seqs_near_update, lemma_within_near,
    num_bonds, num_horizontal, num_internal, reservoir_coin, reservoir_coin_index, seqs_near,
    sweep_drift, sweep_drift_of,
};
use crate::dynamics::exchange::{lemma_bond_exchange_delta, swap_coin_index};
use crate::ising_model::IsingModel;
use crate::lattice::{exchange_delta, lemma_side_fits, side_fits};
use crate::random::{seeded_small_rng, random_below, toss};
use rand::distr::Bernoulli;
use rand::rngs::SmallRng;
use vstd::prelude::*;

verus! {

/// Exchange dynamics at an inverse temperature: the spin currents through the
/// columns, the exchange and reservoir coins, and the bond table.
pub struct KawasakiDynamics {
    pub current_h: Vec<i32>,
    /// The seven exchange coins, for energy changes -12, -8, ..., 12.
    pub swap_coins: Vec<Bernoulli>,
    /// The two reservoir coins (see `reservoir_coin`).
    pub reservoir_flip: Vec<Bernoulli>,
    pub edges: Vec<[u32; 2]>,
    pub n_horizontal: usize,
    pub n_internal: usize,
    pub n_total: usize,
    pub rng: SmallRng,
}

/// A visit of bond `r` of the table, from `before` to `after` (each a model
/// and its dynamics). Across an internal bond either nothing changed, or the
/// two opposite spins were exchanged and, across a horizontal bond, the left
/// spin's value was added to the current through its column. Across a
/// reservoir bond the currents stay and either nothing changed or the boundary
/// site flipped.
pub open spec fn bond_move(after: (IsingModel, KawasakiDynamics), before: (IsingModel, KawasakiDynamics), r: int) -> bool {
    let l = before.0.l as int;
    let lat = before.0.lattice@;
    let cur = before.1.current_h@;
    let a = edge_spec(l, r).0;
    let b = edge_spec(l, r).1;
    &&& 0 <= r < num_bonds(l)
    &&& if r < num_internal(l) {
        ||| after.0.same_as(&before.0) && after.1.current_h@ == cur
        ||| {
            &&& lat[a] != lat[b]
            &&& after.0.exchanged_from(&before.0, a, b)
            &&& after.1.current_h@ == if r < num_horizontal(l) {
                cur.update(a % l, (cur[a % l] + lat[a]) as i32)
            } else {
                cur
            }
        }
    } else {
        &&& after.1.current_h@ == cur
        &&& after.0.same_as(&before.0) || after.0.flipped_from(&before.0, a)
    }
}

/// A visit of an internal bond keeps the total spin: the bulk of the lattice
/// only ever exchanges spins.
pub proof fn lemma_internal_visit_keeps_spin(
    after: (IsingModel, KawasakiDynamics),
    before: (IsingModel, KawasakiDynamics),
    r: int,
)
    requires
        before.0.wf(),
        after.0.wf(),
        before.0.l >= 1,
        r < num_internal(before.0.l as int),
        bond_move(after, before, r),
    ensures
        after.0.total_spin == before.0.total_spin,
{
    let l = before.0.l as int;
    let a = edge_spec(l, r).0;
    let b = edge_spec(l, r).1;
    lemma_side_fits(l);
    lemma_edge_sites(l, before.0.neighbors@, r);
    if after.0.exchanged_from(&before.0, a, b) && before.0.lattice@[a] != before.0.lattice@[b] {
        lemma_exchange_keeps_spin(after.0, before.0, a, b);
    }
}

/// `after` is `before` after the visit of bond `r` whose coin came up
/// `heads`: across an internal bond with opposite spins heads exchanges them
/// (an exchange across a horizontal bond adding the left spin's value to the
/// current through its column), across a reservoir bond heads flips the
/// boundary site; otherwise nothing changes.
pub open spec fn bond_visited(
    after: (IsingModel, KawasakiDynamics),
    before: (IsingModel, KawasakiDynamics),
    r: int,
    heads: bool,
) -> bool {
    let l = before.0.l as int;
    let lat = before.0.lattice@;
    let cur = before.1.current_h@;
    let a = edge_spec(l, r).0;
    let b = edge_spec(l, r).1;
    if r < num_internal(l) {
        if lat[a] != lat[b] && heads {
            &&& after.0.exchanged_from(&before.0, a, b)
            &&& after.1.current_h@ == if r < num_horizontal(l) {
                cur.update(a % l, (cur[a % l] + lat[a]) as i32)
            } else {
                cur
            }
        } else {
            after.0.same_as(&before.0) && after.1.current_h@ == cur
        }
    } else {
        &&& after.1.current_h@ == cur
        &&& if heads {
            after.0.flipped_from(&before.0, a)
        } else {
            after.0.same_as(&before.0)
        }
    }
}

/// Step `i` of `trace` is the visit of some bond.
pub open spec fn bond_link(trace: Seq<(IsingModel, KawasakiDynamics)>, i: int) -> bool {
    exists|r: int| #[trigger] bond_move(trace[i + 1], trace[i], r)
}

/// `trace` leads from `before` to `after` by `n` bond visits.
pub open spec fn bond_run(
    trace: Seq<(IsingModel, KawasakiDynamics)>,
    before: (IsingModel, KawasakiDynamics),
    after: (IsingModel, KawasakiDynamics),
    n: int,
) -> bool {
    &&& trace.len() == n + 1
    &&& trace[0] == before
    &&& trace[n] == after
    &&& forall|i: int| 0 <= i < n ==> #[trigger] bond_link(trace, i)
}

/// Extending a run by one more bond visit.
proof fn lemma_bond_run_push(
    trace: Seq<(IsingModel, KawasakiDynamics)>,
    before: (IsingModel, KawasakiDynamics),
    mid: (IsingModel, KawasakiDynamics),
    after: (IsingModel, KawasakiDynamics),
    n: int,
    r: int,
)
    requires
        n >= 0,
        bond_run(trace, before, mid, n),
        bond_move(after, mid, r),
    ensures
        bond_run(trace.push(after), before, after, n + 1),
{
    let t = trace.push(after);
    assert forall|i: int| 0 <= i < n + 1 implies #[trigger] bond_link(t, i) by {
        if i < n {
            assert(bond_link(trace, i));
            let j = choose|j: int| #[trigger] bond_move(trace[i + 1], trace[i], j);
            assert(t[i + 1] == trace[i + 1]);
            assert(bond_move(t[i + 1], t[i], j));
        } else {
            assert(bond_move(t[i + 1], t[i], r));
        }
    }
}

impl KawasakiDynamics {
    /// The dynamics is set up for an `l x l` lattice.
    pub open spec fn wf(&self, l: int) -> bool {
        &&& side_fits(l)
        &&& l >= 1
        &&& self.current_h@.len() == l - 1
        &&& self.n_horizontal == num_horizontal(l)
        &&& self.n_internal == num_internal(l)
        &&& self.n_total == num_bonds(l)
        &&& edges_built(l, self.edges@)
        &&& self.swap_coins@.len() == 7
        &&& self.reservoir_flip@.len() == 2
    }

    /// The stored energy and every current lie in `-b ..= b`.
    pub open spec fn within(&self, model: &IsingModel, b: int) -> bool {
        &&& -b <= model.energy <= b
        &&& all_within(self.current_h@, b)
    }

    /// The stored energy and every current lie within `d` of their values in
    /// `before` and `before_model`.
    pub open spec fn near(
        &self,
        model: &IsingModel,
        before: &Self,
        before_model: &IsingModel,
        d: int,
    ) -> bool {
        &&& -d <= model.energy - before_model.energy <= d
        &&& seqs_near(self.current_h@, before.current_h@, d)
    }

    /// Exchange dynamics for an `l x l` lattice, with the currents at 0. The
    /// seven `swap_coins` accept exchanges (coin `delta / 4 + 3` for an energy
    /// change `delta`), and the two `reservoir_flip` coins flip boundary sites
    /// (see `reservoir_coin`).
    /// The random numbers are drawn from a generator seeded with `seed`.
    pub fn new(l: usize, swap_coins: Vec<Bernoulli>, reservoir_flip: Vec<Bernoulli>, seed: u64) -> (d: Self)
        requires
            side_fits(l as int),
            l >= 1,
            swap_coins@.len() == 7,
            reservoir_flip@.len() == 2,
        ensures
            d.wf(l as int),
            d.current_h@ == Seq::new((l - 1) as nat, |i: int| 0i32),
            d.swap_coins@ == swap_coins@,
            d.reservoir_flip@ == reservoir_flip@,
    {
        let rng = seeded_small_rng(seed);
        let current_h = vec![0; l - 1];
        let (edges, n_horizontal, n_internal, n_total) = build_edges(l);
        assert(current_h@ =~= Seq::new((l - 1) as nat, |i: int| 0i32));
        Self {
            current_h,
            swap_coins,
            reservoir_flip,
            edges,
            n_horizontal,
            n_internal,
            n_total,
            rng,
        }
    }

    /// The visit of bond `r`, its coin having come up `heads`. Across an
    /// internal bond with opposite spins heads exchanges them, and an exchange
    /// across a horizontal bond carries the left spin's value into the current
    /// through its column; across a reservoir bond heads flips the boundary
    /// site. Nothing else changes.
    pub fn visit_bond(&mut self, model: &mut IsingModel, r: usize, heads: bool)
        requires
            old(model).wf(),
            old(self).wf(old(model).l as int),
            old(self).within(old(model), i32::MAX - 20),
            r < old(self).n_total,
        ensures
            final(self).rng == old(self).rng,
            bond_visited((*final(model), *final(self)), (*old(model), *old(self)), r as int, heads),
            bond_move((*final(model), *final(self)), (*old(model), *old(self)), r as int),
            final(self).swap_coins@ == old(self).swap_coins@,
            final(self).reservoir_flip@ == old(self).reservoir_flip@,
            final(self).edges@ == old(self).edges@,
            final(self).n_total == old(self).n_total,
            final(model).wf(),
            final(self).wf(final(model).l as int),
            final(model).l == old(model).l,
            final(model).neighbors@ == old(model).neighbors@,
            final(self).near(final(model), old(self), old(model), 20),
            old(model).is_periodic() && old(model).l >= 3 && old(model).energy_consistent()
                ==> final(model).energy_consistent(),
    {
        let l = model.l;
        let ghost li = l as int;
        proof {
            lemma_side_fits(li);
            lemma_edge_sites(li, model.neighbors@, r as int);
            assert(self.edges@[r as int][0] as int == edge_spec(li, r as int).0);
        }
        let e = self.edges[r];
        let a = e[0] as usize;
        if r < self.n_internal {
            let b = e[1] as usize;
            if model.lattice[a] == model.lattice[b] || !heads {
                return;
            }
            proof {
                lemma_bond_exchange_delta(model, r as int);
            }
            let energy_delta = model.swap_energy_delta(a, b);
            if r < self.n_horizontal {
                let x = a % l;
                let c = self.current_h[x] + model.lattice[a];
                self.current_h.set(x, c);
                proof {
                    lemma_seqs_near_update(old(self).current_h@, x as int, c, 20);
                }
            }
            model.swap(a, b, energy_delta);
        } else if heads {
            let delta = model.flip_energy_delta(a);
            model.flip(a, delta);
        }
    }

    /// Visits bond `r` with the coin that the bond calls for, and returns
    /// that coin and how it came up, or `None` when no coin is tossed. An
    /// internal bond with opposite spins tosses exchange coin
    /// `exchange_delta / 4 + 3`, the coin of the exchange's own energy change;
    /// an internal bond with equal spins tosses none and changes nothing. A
    /// reservoir bond tosses coin 0 when its boundary spin times
    /// `1 - 2 * side` is 1 (an up spin on the left, a down spin on the right)
    /// and coin 1 otherwise. The bond is then visited as that outcome decides
    /// (see `bond_visited`).
    pub fn visit_drawn_bond(&mut self, model: &mut IsingModel, r: usize) -> (tossed: Option<(usize, bool)>)
        requires
            old(model).wf(),
            old(self).wf(old(model).l as int),
            old(self).within(old(model), i32::MAX - 20),
            r < old(self).n_total,
        ensures
            ({
                let l = old(model).l as int;
                let lat = old(model).lattice@;
                let a = edge_spec(l, r as int).0;
                let b = edge_spec(l, r as int).1;
                &&& r < num_internal(l) && lat[a] == lat[b] ==> tossed is None
                &&& r < num_internal(l) && lat[a] != lat[b] ==> (tossed matches Some((c, _))
                    && c == exchange_delta(lat, old(model).neighbors@, a, b) / 4 + 3)
                &&& r >= num_internal(l) ==> (tossed matches Some((c, _)) && c == (if (1 - 2 * b)
                    * lat[a] == 1 {
                    0int
                } else {
                    1int
                }))
            }),
            bond_visited(
                (*final(model), *final(self)),
                (*old(model), *old(self)),
                r as int,
                tossed matches Some((_, h)) && h,
            ),
            bond_move((*final(model), *final(self)), (*old(model), *old(self)), r as int),
            final(self).swap_coins@ == old(self).swap_coins@,
            final(self).reservoir_flip@ == old(self).reservoir_flip@,
            final(self).edges@ == old(self).edges@,
            final(self).n_total == old(self).n_total,
            final(model).wf(),
            final(self).wf(final(model).l as int),
            final(model).l == old(model).l,
            final(model).neighbors@ == old(model).neighbors@,
            final(self).near(final(model), old(self), old(model), 20),
            old(model).is_periodic() && old(model).l >= 3 && old(model).energy_consistent()
                ==> final(model).energy_consistent(),
    {
        let l = model.l;
        let ghost li = l as int;
        proof {
            lemma_side_fits(li);
            lemma_edge_sites(li, model.neighbors@, r as int);
            assert(self.edges@[r as int][0] as int == edge_spec(li, r as int).0);
            assert(self.edges@[r as int][1] as int == edge_spec(li, r as int).1);
        }
        let e = self.edges[r];
        let a = e[0] as usize;
        let tossed = if r < self.n_internal {
            let b = e[1] as usize;
            if model.lattice[a] == model.lattice[b] {
                None
            } else {
                proof {
                    lemma_bond_exchange_delta(model, r as int);
                }
                let coin = swap_coin_index(model.swap_energy_delta(a, b));
                Some((coin, toss(&mut self.rng, &self.swap_coins[coin])))
            }
        } else {
            let coin = reservoir_coin_index(e[1], model.lattice[a]);
            Some((coin, toss(&mut self.rng, &self.reservoir_flip[coin])))
        };
        let heads = match tossed {
            Some((_, h)) => h,
            None => false,
        };
        self.visit_bond(model, r, heads);
        tossed
    }

    /// One randomly drawn bond, visited with the coin it calls for (see
    /// `visit_drawn_bond`).
    fn step(&mut self, model: &mut IsingModel) -> (r: Ghost<int>)
        requires
            old(model).wf(),
            old(self).wf(old(model).l as int),
            old(self).within(old(model), i32::MAX - 20),
        ensures
            bond_move((*final(model), *final(self)), (*old(model), *old(self)), r@),
            final(model).wf(),
            final(self).wf(final(model).l as int),
            final(model).l == old(model).l,
            final(model).neighbors@ == old(model).neighbors@,
            final(self).near(final(model), old(self), old(model), 20),
            old(model).is_periodic() && old(model).l >= 3 && old(model).energy_consistent()
                ==> final(model).energy_consistent(),
    {
        let l = model.l;
        let ghost li = l as int;
        proof {
            lemma_side_fits(li);
            assert(num_bonds(li) > 0) by (nonlinear_arith)
                requires
                    li >= 1,
            ;
        }
        let r = random_below(&mut self.rng, self.n_total);
        proof {
            lemma_edge_sites(li, model.neighbors@, r as int);
            assert(self.edges@[r as int][0] as int == edge_spec(li, r as int).0);
        }
        self.visit_drawn_bond(model, r);
        Ghost(r as int)
    }

    /// `self` and `model` are `before` and `before_model` after one sweep: a
    /// run of as many bond visits as there are bonds.
    pub open spec fn swept_from(
        &self,
        model: &IsingModel,
        before: &Self,
        before_model: &IsingModel,
    ) -> bool {
        exists|trace: Seq<(IsingModel, KawasakiDynamics)>|
            #[trigger] bond_run(
                trace,
                (*before_model, *before),
                (*model, *self),
                num_bonds(before_model.l as int),
            )
    }

    /// One sweep: as many randomly drawn bonds as there are, each visited as
    /// its coin decides.
    pub fn sweep(&mut self, model: &mut IsingModel)
        requires
            old(model).wf(),
            old(self).wf(old(model).l as int),
            old(self).within(old(model), i32::MAX - sweep_drift(old(model).l as int)),
        ensures
            final(self).swept_from(final(model), old(self), old(model)),
            final(model).wf(),
            final(self).wf(final(model).l as int),
            final(model).l == old(model).l,
            final(model).neighbors@ == old(model).neighbors@,
            final(self).near(final(model), old(self), old(model), sweep_drift(old(model).l as int)),
            old(model).is_periodic() && old(model).l >= 3 && old(model).energy_consistent()
                ==> final(model).energy_consistent(),
    {
        let l = model.l;
        let ghost li = l as int;
        let ghost s0 = *self;
        let ghost m0 = *model;
        let ghost periodic0 = model.is_periodic() && l >= 3 && model.energy_consistent();
        proof {
            lemma_side_fits(li);
        }
        let n_total = self.n_total;
        let ghost trace = seq![(*model, *self)];
        let mut i: usize = 0;
        while i < n_total
            invariant
                bond_run(trace, (m0, s0), (*model, *self), i as int),
                model.wf(),
                self.wf(li),
                model.l == l,
                li == l,
                side_fits(li),
                model.neighbors@ == m0.neighbors@,
                n_total == num_bonds(li),
                s0.within(&m0, i32::MAX - sweep_drift(li)),
                0 <= i <= n_total,
                self.near(model, &s0, &m0, 20 * i),
                periodic0 ==> model.is_periodic() && model.l >= 3 && model.energy_consistent(),
            decreases n_total - i,
        {
            let ghost s1 = *self;
            let ghost m1 = *model;
            proof {
                assert(20 * (i + 1) <= sweep_drift(li)) by (nonlinear_arith)
                    requires
                        i < n_total,
                        n_total == li * (li - 1) + li * li + 2 * li,
                        li >= 1,
                ;
                lemma_within_near(self.current_h@, s0.current_h@, i32::MAX - sweep_drift(li), 20 * i);
            }
            let r = self.step(model);
            proof {
                lemma_seqs_near_trans(self.current_h@, s1.current_h@, s0.current_h@, 20, 20 * i);
                lemma_bond_run_push(trace, (m0, s0), (m1, s1), (*model, *self), i as int, r@);
                trace = trace.push((*model, *self));
            }
            i = i + 1;
        }
        proof {
            assert(20 * i <= sweep_drift(li)) by (nonlinear_arith)
                requires
                    i == n_total,
                    n_total == li * (li - 1) + li * li + 2 * li,
                    li >= 1,
            ;
        }
    }

    /// Whether the stored energy and the currents leave room for one more
    /// sweep without leaving `i32`.
    pub fn sweep_fits(&self, model: &IsingModel) -> (ok: bool)
        requires
            side_fits(model.l as int),
        ensures
            ok == self.within(model, i32::MAX - sweep_drift(model.l as int)),
    {
        let b = i32::MAX as i64 - sweep_drift_of(model.l);
        let e = model.energy as i64;
        -b <= e && e <= b && entries_within(&self.current_h, b)
    }
}

} // verus!
