//! Kawasaki spin exchange driven by demons, with randomly drawn bonds only:
//! every horizontal and every vertical bond carries a demon that pays for the
//! exchanges across it and is paid by them, and the boundary columns are
//! coupled to annealed reservoirs.

use crate::dynamics::common::{
    all_within, build_edges, edge_spec, edges_built, entries_within, lemma_edge_sites,
    lemma_exchange_keeps_spin, lemma_seqs_near_trans, lemma_seqs_near_update, lemma_within_near,
    num_bonds, num_horizontal, num_internal, reservoir_coin_index, seqs_near, sweep_drift,
    sweep_drift_of,
};
use crate::dynamics::exchange::{
    demon_exchange, demon_exchanged, lemma_bond_exchange_delta, lemma_demon_exchange_conserves,
};
use crate::ising_model::IsingModel;
use crate::lattice::{exchange_delta, lemma_side_fits, seq_sum, side_fits};
use crate::random::{seeded_small_rng, random_below, toss};
use rand::distr::Bernoulli;
use rand::rngs::SmallRng;
use vstd::prelude::*;

verus! {

/// Demon-driven exchange dynamics with random bonds: one demon per horizontal
/// and one per vertical bond, the spin currents through the columns, the bond
/// table and the two reservoir coins.
pub struct CreutzKawasakiRandomDynamics {
    pub demons_h: Vec<i32>,
    pub demons_v: Vec<i32>,
    pub current_h: Vec<i32>,
    /// The two reservoir coins (see `reservoir_coin`).
    pub reservoir_flip: Vec<Bernoulli>,
    pub edges: Vec<[u32; 2]>,
    pub n_horizontal: usize,
    pub n_internal: usize,
    pub n_total: usize,
    pub rng: SmallRng,
}

/// A visit of bond `r` of the table, from `before` to `after` (each a model
/// and its dynamics). An internal bond with equal spins changes nothing;
/// across one with opposite spins the bond's demon (horizontal or vertical)
/// is offered the exchange, and an exchange across a horizontal bond adds the
/// left spin's value to the current through its column. A reservoir bond
/// leaves the demons and the currents, and either nothing changed or its
/// boundary site flipped.
pub open spec fn bond_move(
    after: (IsingModel, CreutzKawasakiRandomDynamics),
    before: (IsingModel, CreutzKawasakiRandomDynamics),
    r: int,
) -> bool {
    let l = before.0.l as int;
    let lat = before.0.lattice@;
    let d0 = before.1;
    let d1 = after.1;
    let cur = d0.current_h@;
    let a = edge_spec(l, r).0;
    let b = edge_spec(l, r).1;
    &&& 0 <= r < num_bonds(l)
    &&& if r < num_internal(l) {
        if lat[a] == lat[b] {
            &&& after.0.same_as(&before.0)
            &&& d1.demons_h@ == d0.demons_h@
            &&& d1.demons_v@ == d0.demons_v@
            &&& d1.current_h@ == cur
        } else if r < num_horizontal(l) {
            &&& demon_exchanged(after.0, d1.demons_h@, before.0, d0.demons_h@, a, b)
            &&& d1.demons_v@ == d0.demons_v@
            &&& d1.current_h@ == if exchange_delta(lat, before.0.neighbors@, a, b) <= d0.demons_h@[a] {
                cur.update(a % l, (cur[a % l] + lat[a]) as i32)
            } else {
                cur
            }
        } else {
            &&& demon_exchanged(after.0, d1.demons_v@, before.0, d0.demons_v@, a, b)
            &&& d1.demons_h@ == d0.demons_h@
            &&& d1.current_h@ == cur
        }
    } else {
        &&& d1.demons_h@ == d0.demons_h@
        &&& d1.demons_v@ == d0.demons_v@
        &&& d1.current_h@ == cur
        &&& after.0.same_as(&before.0) || after.0.flipped_from(&before.0, a)
    }
}

/// A visit of an internal bond keeps the energy of the lattice and the demons
/// together and the total spin, and keeps every demon from going negative.
pub proof fn lemma_internal_visit_conserves(
    after: (IsingModel, CreutzKawasakiRandomDynamics),
    before: (IsingModel, CreutzKawasakiRandomDynamics),
    r: int,
)
    requires
        before.0.wf(),
        before.1.wf(before.0.l as int),
        before.1.within(&before.0, i32::MAX - 20),
        after.0.wf(),
        r < num_internal(before.0.l as int),
        bond_move(after, before, r),
    ensures
        after.0.energy + after.1.demon_total() == before.0.energy + before.1.demon_total(),
        after.0.total_spin == before.0.total_spin,
        before.1.demons_nonneg() ==> after.1.demons_nonneg(),
{
    let l = before.0.l as int;
    let a = edge_spec(l, r).0;
    let b = edge_spec(l, r).1;
    lemma_edge_sites(l, before.0.neighbors@, r);
    if before.0.lattice@[a] != before.0.lattice@[b] {
        lemma_bond_exchange_delta(&before.0, r);
        if after.0.exchanged_from(&before.0, a, b) {
            lemma_exchange_keeps_spin(after.0, before.0, a, b);
        }
        if r < num_horizontal(l) {
            lemma_demon_exchange_conserves(
                after.0,
                after.1.demons_h@,
                before.0,
                before.1.demons_h@,
                a,
                b,
            );
        } else {
            lemma_demon_exchange_conserves(
                after.0,
                after.1.demons_v@,
                before.0,
                before.1.demons_v@,
                a,
                b,
            );
        }
    }
}

/// Step `i` of `trace` is the visit of some bond.
pub open spec fn bond_link(trace: Seq<(IsingModel, CreutzKawasakiRandomDynamics)>, i: int) -> bool {
    exists|r: int| #[trigger] bond_move(trace[i + 1], trace[i], r)
}

/// `trace` leads from `before` to `after` by `n` bond visits.
pub open spec fn bond_run(
    trace: Seq<(IsingModel, CreutzKawasakiRandomDynamics)>,
    before: (IsingModel, CreutzKawasakiRandomDynamics),
    after: (IsingModel, CreutzKawasakiRandomDynamics),
    n: int,
) -> bool {
    &&& trace.len() == n + 1
    &&& trace[0] == before
    &&& trace[n] == after
    &&& forall|i: int| 0 <= i < n ==> #[trigger] bond_link(trace, i)
}

/// Extending a run by one more bond visit.
proof fn lemma_bond_run_push(
    trace: Seq<(IsingModel, CreutzKawasakiRandomDynamics)>,
    before: (IsingModel, CreutzKawasakiRandomDynamics),
    mid: (IsingModel, CreutzKawasakiRandomDynamics),
    after: (IsingModel, CreutzKawasakiRandomDynamics),
    n: int,
    r: int,
)
    requires
        n >= 0,
        bond_run(trace, before, mid, n),
        bond_move(after, mid, r),
    ensures
        bond_run(trace.push(after), before, after, n + 1),
{
    let t = trace.push(after);
    assert forall|i: int| 0 <= i < n + 1 implies #[trigger] bond_link(t, i) by {
        if i < n {
            assert(bond_link(trace, i));
            let j = choose|j: int| #[trigger] bond_move(trace[i + 1], trace[i], j);
            assert(t[i + 1] == trace[i + 1]);
            assert(bond_move(t[i + 1], t[i], j));
        } else {
            assert(bond_move(t[i + 1], t[i], r));
        }
    }
}

impl CreutzKawasakiRandomDynamics {
    /// The dynamics is set up for an `l x l` lattice.
    pub open spec fn wf(&self, l: int) -> bool {
        &&& side_fits(l)
        &&& l >= 1
        &&& self.demons_h@.len() == l * l
        &&& self.demons_v@.len() == l * l
        &&& self.current_h@.len() == l - 1
        &&& self.n_horizontal == num_horizontal(l)
        &&& self.n_internal == num_internal(l)
        &&& self.n_total == num_bonds(l)
        &&& edges_built(l, self.edges@)
        &&& self.reservoir_flip@.len() == 2
    }

    /// The stored energy, every demon and every current lie in `-b ..= b`.
    pub open spec fn within(&self, model: &IsingModel, b: int) -> bool {
        &&& -b <= model.energy <= b
        &&& all_within(self.demons_h@, b)
        &&& all_within(self.demons_v@, b)
        &&& all_within(self.current_h@, b)
    }

    /// The stored energy, every demon and every current lie within `d` of
    /// their values in `before` and `before_model`.
    pub open spec fn near(
        &self,
        model: &IsingModel,
        before: &Self,
        before_model: &IsingModel,
        d: int,
    ) -> bool {
        &&& -d <= model.energy - before_model.energy <= d
        &&& seqs_near(self.demons_h@, before.demons_h@, d)
        &&& seqs_near(self.demons_v@, before.demons_v@, d)
        &&& seqs_near(self.current_h@, before.current_h@, d)
    }

    /// The energy held by all demons.
    pub open spec fn demon_total(&self) -> int {
        seq_sum(self.demons_h@) + seq_sum(self.demons_v@)
    }

    /// No demon holds a negative energy.
    pub open spec fn demons_nonneg(&self) -> bool {
        &&& forall|i: int| 0 <= i < self.demons_h@.len() ==> #[trigger] self.demons_h@[i] >= 0
        &&& forall|i: int| 0 <= i < self.demons_v@.len() ==> #[trigger] self.demons_v@[i] >= 0
    }

    /// Demon dynamics for an `l x l` lattice: every demon starts with
    /// `starting_energy`, the currents at 0. The two coins of `reservoir_flip`
    /// decide the flips of the boundary sites (see `reservoir_coin`).
    /// The random numbers are drawn from a generator seeded with `seed`.
    pub fn new(l: usize, starting_energy: i32, reservoir_flip: Vec<Bernoulli>, seed: u64) -> (d: Self)
        requires
            side_fits(l as int),
            l >= 1,
            reservoir_flip@.len() == 2,
        ensures
            d.wf(l as int),
            d.demons_h@ == Seq::new((l * l) as nat, |i: int| starting_energy),
            d.demons_v@ == Seq::new((l * l) as nat, |i: int| starting_energy),
            d.current_h@ == Seq::new((l - 1) as nat, |i: int| 0i32),
            d.reservoir_flip@ == reservoir_flip@,
    {
        proof {
            lemma_side_fits(l as int);
        }
        let n = l * l;
        let demons_h = vec![starting_energy; n];
        let demons_v = vec![starting_energy; n];
        let current_h = vec![0; l - 1];
        let rng = seeded_small_rng(seed);
        let (edges, n_horizontal, n_internal, n_total) = build_edges(l);
        assert(demons_h@ =~= Seq::new((l * l) as nat, |i: int| starting_energy));
        assert(demons_v@ =~= Seq::new((l * l) as nat, |i: int| starting_energy));
        assert(current_h@ =~= Seq::new((l - 1) as nat, |i: int| 0i32));
        Self {
            demons_h,
            demons_v,
            current_h,
            reservoir_flip,
            edges,
            n_horizontal,
            n_internal,
            n_total,
            rng,
        }
    }

    /// Moving on from `near(.., d1)` by a step that stays within `d2`.
    proof fn lemma_near_trans(
        a: &Self,
        am: &IsingModel,
        b: &Self,
        bm: &IsingModel,
        c: &Self,
        cm: &IsingModel,
        d1: int,
        d2: int,
    )
        requires
            a.near(am, b, bm, d1),
            b.near(bm, c, cm, d2),
        ensures
            a.near(am, c, cm, d1 + d2),
    {
        lemma_seqs_near_trans(a.demons_h@, b.demons_h@, c.demons_h@, d1, d2);
        lemma_seqs_near_trans(a.demons_v@, b.demons_v@, c.demons_v@, d1, d2);
        lemma_seqs_near_trans(a.current_h@, b.current_h@, c.current_h@, d1, d2);
    }

    /// Near counters keep within a widened bound.
    proof fn lemma_near_within(a: &Self, am: &IsingModel, b: &Self, bm: &IsingModel, bound: int, d: int)
        requires
            a.near(am, b, bm, d),
            b.within(bm, bound),
        ensures
            a.within(am, bound + d),
    {
        lemma_within_near(a.demons_h@, b.demons_h@, bound, d);
        lemma_within_near(a.demons_v@, b.demons_v@, bound, d);
        lemma_within_near(a.current_h@, b.current_h@, bound, d);
    }

    proof fn lemma_near_refl(a: &Self, am: &IsingModel, d: int)
        requires
            d >= 0,
        ensures
            a.near(am, a, am, d),
    {
    }

    /// The visit of bond `r`: an internal bond with opposite spins offers
    /// the exchange to its demon, and `heads` plays no part; a reservoir bond
    /// flips its boundary site when its coin came up `heads`.
    pub fn visit_bond(&mut self, model: &mut IsingModel, r: usize, heads: bool)
        requires
            old(model).wf(),
            old(self).wf(old(model).l as int),
            old(self).within(old(model), i32::MAX - 20),
            r < old(self).n_total,
        ensures
            final(self).rng == old(self).rng,
            bond_move((*final(model), *final(self)), (*old(model), *old(self)), r as int),
            r >= num_internal(old(model).l as int) ==> (if heads {
                final(model).flipped_from(old(model), edge_spec(old(model).l as int, r as int).0)
            } else {
                final(model).same_as(old(model))
            }),
            final(self).reservoir_flip@ == old(self).reservoir_flip@,
            final(self).edges@ == old(self).edges@,
            final(self).n_total == old(self).n_total,
            final(model).wf(),
            final(self).wf(final(model).l as int),
            final(model).l == old(model).l,
            final(model).neighbors@ == old(model).neighbors@,
            final(self).near(final(model), old(self), old(model), 20),
            old(self).demons_nonneg() ==> final(self).demons_nonneg(),
            old(model).is_periodic() && old(model).l >= 3 && old(model).energy_consistent()
                ==> final(model).energy_consistent(),
    {
        let l = model.l;
        let ghost li = l as int;
        proof {
            lemma_side_fits(li);
            assert(num_bonds(li) > 0) by (nonlinear_arith)
                requires
                    li >= 1,
            ;
        }
        proof {
            lemma_edge_sites(li, model.neighbors@, r as int);
            assert(self.edges@[r as int][0] as int == edge_spec(li, r as int).0);
        }
        let e = self.edges[r];
        let a = e[0] as usize;
        if r < self.n_internal {
            let b = e[1] as usize;
            if model.lattice[a] == model.lattice[b] {
                return;
            }
            if r < self.n_horizontal {
                let current = model.lattice[a];
                let ghost h0 = self.demons_h@;
                let exchanged = demon_exchange(model, &mut self.demons_h, a, b);
                if exchanged {
                    let x = a % l;
                    let c = self.current_h[x] + current;
                    self.current_h.set(x, c);
                    proof {
                        lemma_seqs_near_update(old(self).current_h@, x as int, c, 20);
                    }
                }
                proof {
                    assert forall|i: int| 0 <= i < self.demons_h@.len() implies -20 <= #[trigger] self.demons_h@[i] - h0[i] <= 20 by {
                        if i != a {
                            assert(self.demons_h@[i] == h0[i]);
                        }
                    }
                }
            } else {
                let ghost v0 = self.demons_v@;
                demon_exchange(model, &mut self.demons_v, a, b);
                proof {
                    assert forall|i: int| 0 <= i < self.demons_v@.len() implies -20 <= #[trigger] self.demons_v@[i] - v0[i] <= 20 by {
                        if i != a {
                            assert(self.demons_v@[i] == v0[i]);
                        }
                    }
                }
            }
        } else {
            if heads {
                let delta = model.flip_energy_delta(a);
                model.flip(a, delta);
            }
        }
    }

    /// Visits bond `r`, tossing first the coin that the bond calls for, and
    /// returns that coin and how it came up, or `None` when no coin is tossed.
    /// A reservoir bond of an annealed reservoir tosses coin 0 when its
    /// boundary spin times `1 - 2 * side` is 1 (an up spin on the left, a down
    /// spin on the right) and coin 1 otherwise, and its site flips exactly on
    /// heads; every other bond tosses none (see `visit_bond`).
    pub fn visit_drawn_bond(&mut self, model: &mut IsingModel, r: usize) -> (tossed: Option<(usize, bool)>)
        requires
            old(model).wf(),
            old(self).wf(old(model).l as int),
            old(self).within(old(model), i32::MAX - 20),
            r < old(self).n_total,
        ensures
            ({
                let l = old(model).l as int;
                let lat = old(model).lattice@;
                let a = edge_spec(l, r as int).0;
                let b = edge_spec(l, r as int).1;
                &&& r < num_internal(l) ==> tossed is None
                &&& r >= num_internal(l) ==> {
                    &&& tossed matches Some((c, _)) && c == (if (1 - 2 * b) * lat[a] == 1 {
                        0int
                    } else {
                        1int
                    })
                    &&& tossed matches Some((_, h)) ==> if h {
                        final(model).flipped_from(old(model), a)
                    } else {
                        final(model).same_as(old(model))
                    }
                }
            }),
            bond_move((*final(model), *final(self)), (*old(model), *old(self)), r as int),
            final(self).reservoir_flip@ == old(self).reservoir_flip@,
            final(self).edges@ == old(self).edges@,
            final(self).n_total == old(self).n_total,
            final(model).wf(),
            final(self).wf(final(model).l as int),
            final(model).l == old(model).l,
            final(model).neighbors@ == old(model).neighbors@,
            final(self).near(final(model), old(self), old(model), 20),
            old(self).demons_nonneg() ==> final(self).demons_nonneg(),
            old(model).is_periodic() && old(model).l >= 3 && old(model).energy_consistent()
                ==> final(model).energy_consistent(),
    {
        let l = model.l;
        let ghost li = l as int;
        proof {
            lemma_side_fits(li);
            assert(num_bonds(li) > 0) by (nonlinear_arith)
                requires
                    li >= 1,
            ;
            lemma_edge_sites(li, model.neighbors@, r as int);
            assert(self.edges@[r as int][0] as int == edge_spec(li, r as int).0);
            assert(self.edges@[r as int][1] as int == edge_spec(li, r as int).1);
        }
        let tossed = if r >= self.n_internal {
            let e = self.edges[r];
            let coin = reservoir_coin_index(e[1], model.lattice[e[0] as usize]);
            Some((coin, toss(&mut self.rng, &self.reservoir_flip[coin])))
        } else {
            None
        };
        let heads = match tossed {
            Some((_, h)) => h,
            None => false,
        };
        self.visit_bond(model, r, heads);
        tossed
    }

    /// One randomly drawn bond, visited with the coin it calls for (see
    /// `visit_drawn_bond`).
    fn step(&mut self, model: &mut IsingModel) -> (r: Ghost<int>)
        requires
            old(model).wf(),
            old(self).wf(old(model).l as int),
            old(self).within(old(model), i32::MAX - 20),
        ensures
            bond_move((*final(model), *final(self)), (*old(model), *old(self)), r@),
            final(model).wf(),
            final(self).wf(final(model).l as int),
            final(model).l == old(model).l,
            final(model).neighbors@ == old(model).neighbors@,
            final(self).near(final(model), old(self), old(model), 20),
            old(self).demons_nonneg() ==> final(self).demons_nonneg(),
            old(model).is_periodic() && old(model).l >= 3 && old(model).energy_consistent()
                ==> final(model).energy_consistent(),
    {
        let l = model.l;
        let ghost li = l as int;
        proof {
            lemma_side_fits(li);
            assert(num_bonds(li) > 0) by (nonlinear_arith)
                requires
                    li >= 1,
            ;
        }
        let r = random_below(&mut self.rng, self.n_total);
        self.visit_drawn_bond(model, r);
        Ghost(r as int)
    }

    /// `self` and `model` are `before` and `before_model` after one sweep: a
    /// run of as many bond visits as there are bonds.
    pub open spec fn swept_from(
        &self,
        model: &IsingModel,
        before: &Self,
        before_model: &IsingModel,
    ) -> bool {
        exists|trace: Seq<(IsingModel, CreutzKawasakiRandomDynamics)>|
            #[trigger] bond_run(
                trace,
                (*before_model, *before),
                (*model, *self),
                num_bonds(before_model.l as int),
            )
    }

    /// One sweep: as many randomly drawn bonds as there are.
    pub fn sweep(&mut self, model: &mut IsingModel)
        requires
            old(model).wf(),
            old(self).wf(old(model).l as int),
            old(self).within(old(model), i32::MAX - sweep_drift(old(model).l as int)),
        ensures
            final(self).swept_from(final(model), old(self), old(model)),
            final(model).wf(),
            final(self).wf(final(model).l as int),
            final(model).l == old(model).l,
            final(model).neighbors@ == old(model).neighbors@,
            final(self).near(final(model), old(self), old(model), sweep_drift(old(model).l as int)),
            old(self).demons_nonneg() ==> final(self).demons_nonneg(),
            old(model).is_periodic() && old(model).l >= 3 && old(model).energy_consistent()
                ==> final(model).energy_consistent(),
    {
        let l = model.l;
        let ghost li = l as int;
        let ghost s0 = *self;
        let ghost m0 = *model;
        let ghost periodic0 = model.is_periodic() && l >= 3 && model.energy_consistent();
        proof {
            lemma_side_fits(li);
            Self::lemma_near_refl(self, model, 0);
        }
        let n_total = self.n_total;
        let ghost trace = seq![(*model, *self)];
        let mut i: usize = 0;
        while i < n_total
            invariant
                bond_run(trace, (m0, s0), (*model, *self), i as int),
                model.wf(),
                self.wf(li),
                model.l == l,
                li == l,
                side_fits(li),
                model.neighbors@ == m0.neighbors@,
                n_total == num_bonds(li),
                s0.within(&m0, i32::MAX - sweep_drift(li)),
                0 <= i <= n_total,
                self.near(model, &s0, &m0, 20 * i),
                s0.demons_nonneg() ==> self.demons_nonneg(),
                periodic0 ==> model.is_periodic() && model.l >= 3 && model.energy_consistent(),
            decreases n_total - i,
        {
            let ghost s1 = *self;
            let ghost m1 = *model;
            proof {
                assert(20 * (i + 1) <= sweep_drift(li)) by (nonlinear_arith)
                    requires
                        i < n_total,
                        n_total == li * (li - 1) + li * li + 2 * li,
                        li >= 1,
                ;
                Self::lemma_near_within(self, model, &s0, &m0, i32::MAX - sweep_drift(li), 20 * i);
            }
            let r = self.step(model);
            proof {
                Self::lemma_near_trans(self, model, &s1, &m1, &s0, &m0, 20, 20 * i);
                lemma_bond_run_push(trace, (m0, s0), (m1, s1), (*model, *self), i as int, r@);
                trace = trace.push((*model, *self));
            }
            i = i + 1;
        }
        proof {
            assert(20 * i <= sweep_drift(li)) by (nonlinear_arith)
                requires
                    i == n_total,
                    n_total == li * (li - 1) + li * li + 2 * li,
                    li >= 1,
            ;
            assert(self.near(model, &s0, &m0, sweep_drift(li)));
        }
    }

    /// Whether the stored energy, the demons and the currents leave room for
    /// one more sweep without leaving `i32`.
    pub fn sweep_fits(&self, model: &IsingModel) -> (ok: bool)
        requires
            side_fits(model.l as int),
        ensures
            ok == self.within(model, i32::MAX - sweep_drift(model.l as int)),
    {
        let b = i32::MAX as i64 - sweep_drift_of(model.l);
        let e = model.energy as i64;
        -b <= e && e <= b && entries_within(&self.demons_h, b) && entries_within(&self.demons_v, b)
            && entries_within(&self.current_h, b)
    }
}

} // verus!
