//! Kawasaki spin exchange driven by demons that are kept at a temperature:
//! every horizontal and every vertical bond carries a demon that pays for the
//! exchanges across it, and the demons are redrawn in turn from a fixed pool
//! of thermal demon energies, after every bond visit or after every sweep.
//! The boundary columns are coupled to reservoirs.

use crate::dynamics::common::{
    all_within, build_edges, build_reservoir, checkerboard_bonds, edge_spec, edges_built,
    entries_within, h_pass_bonds, lemma_edge_sites, lemma_horizontal_bond_index,
    lemma_near_gives_near_or_pool, lemma_near_or_pool_replace, lemma_near_or_pool_trans,
    lemma_near_or_pool_within, lemma_seqs_near_trans, lemma_seqs_near_update,
    lemma_vertical_bond_index, lemma_visit_path_concat, lemma_visit_path_push, lemma_within_near,
    couple_reservoir_bond, num_bonds, num_horizontal, num_internal, process_reservoirs,
    reservoir_coin_index,
    reservoir_holds, reservoir_visit, reservoirs_coupled, row_h_bonds, row_v_bonds, seqs_near,
    seqs_near_or_pool, sweep_drift, sweep_drift_of, v_pass_bonds, visit_path, RESERVOIR_SIZE,
};
use crate::dynamics::exchange::demon_exchange;
use crate::dynamics::{BondSelection, DemonReplacementMode, ReservoirType};
use crate::ising_model::IsingModel;
use crate::lattice::{exchange_delta, lemma_side_fits, lemma_site_row_col, seq_sum, side_fits};
use crate::random::{random_below, seeded_small_rng, toss};
use rand::distr::Bernoulli;
use rand::rngs::SmallRng;
use vstd::arithmetic::div_mod::{lemma_add_mod_noop_right, lemma_small_mod};
use vstd::prelude::*;

verus! {

/// Demon-driven exchange dynamics with demons redrawn from a pool: the demons
/// and currents as in `CreutzKawasakiDynamics`, the pool and its cursor, the
/// bond table, and the reservoirs with their cursors.
pub struct CreutzThermalDynamics {
    pub demons_h: Vec<i32>,
    pub demons_v: Vec<i32>,
    pub current_h: Vec<i32>,
    pub replacement_mode: DemonReplacementMode,
    pub bond_selection: BondSelection,
    pub reservoir_type: ReservoirType,
    /// The two reservoir coins (see `reservoir_coin`).
    pub reservoir_flip: Vec<Bernoulli>,
    pub demon_pool: Vec<i32>,
    pub demon_pool_cursor: usize,
    pub edges: Vec<[u32; 2]>,
    pub n_horizontal: usize,
    pub n_internal: usize,
    pub n_total: usize,
    pub reservoir_left: Vec<i32>,
    pub reservoir_right: Vec<i32>,
    pub cursor_left: usize,
    pub cursor_right: usize,
    pub rng: SmallRng,
}

/// A visit of bond `r` of the table, from `before` to `after` (each a model
/// and its dynamics); the pool and the reservoirs themselves never change.
/// An internal bond with equal spins changes nothing. Across one with
/// opposite spins the bond's demon (horizontal or vertical) is offered the
/// exchange, which is made, and paid by the demon, exactly when the demon
/// holds at least the exchange delta; an exchange across a horizontal bond
/// adds the left spin's value to the current through its column. With
/// per-step replacement that demon is then replaced by the pool entry under
/// the pool's cursor, which moves on by one, wrapping. A reservoir bond leaves
/// the demons, the currents and the pool's cursor, and couples its boundary
/// site to its reservoir.
pub open spec fn bond_move(
    after: (IsingModel, CreutzThermalDynamics),
    before: (IsingModel, CreutzThermalDynamics),
    r: int,
) -> bool {
    let l = before.0.l as int;
    let lat = before.0.lattice@;
    let d0 = before.1;
    let d1 = after.1;
    let cur = d0.current_h@;
    let pool = d0.demon_pool@;
    let pc = d0.demon_pool_cursor as int;
    let per_step = d0.replacement_mode == DemonReplacementMode::PerStep;
    let a = edge_spec(l, r).0;
    let b = edge_spec(l, r).1;
    &&& 0 <= r < num_bonds(l)
    &&& d1.same_setup(&d0)
    &&& d1.reservoir_left@ == d0.reservoir_left@
    &&& d1.reservoir_right@ == d0.reservoir_right@
    &&& if r < num_internal(l) {
        let horizontal = r < num_horizontal(l);
        let dem0 = if horizontal {
            d0.demons_h@
        } else {
            d0.demons_v@
        };
        let delta = exchange_delta(lat, before.0.neighbors@, a, b);
        let paid = delta <= dem0[a];
        let dem_mid = if paid {
            dem0.update(a, (dem0[a] - delta) as i32)
        } else {
            dem0
        };
        let dem1 = if per_step {
            dem_mid.update(a, pool[pc])
        } else {
            dem_mid
        };
        &&& d1.cursor_left == d0.cursor_left
        &&& d1.cursor_right == d0.cursor_right
        &&& if lat[a] == lat[b] {
            &&& after.0.same_as(&before.0)
            &&& d1.demons_h@ == d0.demons_h@
            &&& d1.demons_v@ == d0.demons_v@
            &&& d1.current_h@ == cur
            &&& d1.demon_pool_cursor == d0.demon_pool_cursor
        } else {
            &&& paid ==> after.0.exchanged_from(&before.0, a, b)
            &&& !paid ==> after.0.same_as(&before.0)
            &&& horizontal ==> {
                &&& d1.demons_h@ == dem1
                &&& d1.demons_v@ == d0.demons_v@
                &&& d1.current_h@ == if paid {
                    cur.update(a % l, (cur[a % l] + lat[a]) as i32)
                } else {
                    cur
                }
            }
            &&& !horizontal ==> {
                &&& d1.demons_v@ == dem1
                &&& d1.demons_h@ == d0.demons_h@
                &&& d1.current_h@ == cur
            }
            &&& d1.demon_pool_cursor == if per_step {
                (pc + 1) % (pool.len() as int)
            } else {
                pc
            }
        }
    } else {
        &&& d1.demons_h@ == d0.demons_h@
        &&& d1.demons_v@ == d0.demons_v@
        &&& d1.current_h@ == cur
        &&& d1.demon_pool_cursor == d0.demon_pool_cursor
        &&& reservoir_visit(
            after.0,
            before.0,
            a,
            b,
            d0.reservoir_type,
            d0.reservoir_left@,
            d0.reservoir_right@,
            d0.cursor_left as int,
            d0.cursor_right as int,
            d1.cursor_left as int,
            d1.cursor_right as int,
        )
    }
}

/// `bond_move` as a relation to follow along a path of bonds.
pub open spec fn bond_step() -> spec_fn(
    (IsingModel, CreutzThermalDynamics),
    (IsingModel, CreutzThermalDynamics),
    int,
) -> bool {
    |after: (IsingModel, CreutzThermalDynamics), before: (IsingModel, CreutzThermalDynamics), r: int|
        bond_move(after, before, r)
}

/// Step `i` of `trace` is the visit of some bond.
pub open spec fn bond_link(trace: Seq<(IsingModel, CreutzThermalDynamics)>, i: int) -> bool {
    exists|r: int| #[trigger] bond_move(trace[i + 1], trace[i], r)
}

/// `trace` leads from `before` to `after` by `n` bond visits.
pub open spec fn bond_run(
    trace: Seq<(IsingModel, CreutzThermalDynamics)>,
    before: (IsingModel, CreutzThermalDynamics),
    after: (IsingModel, CreutzThermalDynamics),
    n: int,
) -> bool {
    &&& trace.len() == n + 1
    &&& trace[0] == before
    &&& trace[n] == after
    &&& forall|i: int| 0 <= i < n ==> #[trigger] bond_link(trace, i)
}

/// Extending a run by one more bond visit.
proof fn lemma_bond_run_push(
    trace: Seq<(IsingModel, CreutzThermalDynamics)>,
    before: (IsingModel, CreutzThermalDynamics),
    mid: (IsingModel, CreutzThermalDynamics),
    after: (IsingModel, CreutzThermalDynamics),
    n: int,
    r: int,
)
    requires
        n >= 0,
        bond_run(trace, before, mid, n),
        bond_move(after, mid, r),
    ensures
        bond_run(trace.push(after), before, after, n + 1),
{
    let t = trace.push(after);
    assert forall|i: int| 0 <= i < n + 1 implies #[trigger] bond_link(t, i) by {
        if i < n {
            assert(bond_link(trace, i));
            let j = choose|j: int| #[trigger] bond_move(trace[i + 1], trace[i], j);
            assert(t[i + 1] == trace[i + 1]);
            assert(bond_move(t[i + 1], t[i], j));
        } else {
            assert(bond_move(t[i + 1], t[i], r));
        }
    }
}

impl CreutzThermalDynamics {
    /// The dynamics is set up for an `l x l` lattice.
    pub open spec fn wf(&self, l: int) -> bool {
        &&& side_fits(l)
        &&& l >= 1
        &&& self.demons_h@.len() == l * l
        &&& self.demons_v@.len() == l * l
        &&& self.current_h@.len() == l - 1
        &&& self.n_horizontal == num_horizontal(l)
        &&& self.n_internal == num_internal(l)
        &&& self.bond_selection == BondSelection::Random ==> {
            &&& self.n_total == num_bonds(l)
            &&& edges_built(l, self.edges@)
        }
        &&& self.bond_selection == BondSelection::Checkerboard ==> self.n_total == 2 * l * l + 2 * l
        &&& self.reservoir_flip@.len() == 2
        &&& self.reservoir_type == ReservoirType::Quenched ==> {
            &&& self.cursor_left < self.reservoir_left@.len()
            &&& self.cursor_right < self.reservoir_right@.len()
        }
        &&& self.demon_pool@.len() > 0
        &&& self.demon_pool_cursor < self.demon_pool@.len()
    }

    /// `self` is `before` with every demon redrawn in turn from the pool,
    /// starting at the pool's cursor: the horizontal demons first, then the
    /// vertical ones; the cursor ends after them.
    pub open spec fn refilled_from(&self, before: &Self) -> bool {
        let pool = before.demon_pool@;
        let m = pool.len() as int;
        let pc = before.demon_pool_cursor as int;
        let nh = before.demons_h@.len() as int;
        let nv = before.demons_v@.len() as int;
        &&& self.same_setup(before)
        &&& self.demons_h@ == Seq::new(nh as nat, |j: int| pool[(pc + j) % m])
        &&& self.demons_v@ == Seq::new(nv as nat, |j: int| pool[(pc + nh + j) % m])
        &&& self.demon_pool_cursor == (pc + nh + nv) % m
        &&& self.current_h@ == before.current_h@
        &&& self.reservoir_left@ == before.reservoir_left@
        &&& self.reservoir_right@ == before.reservoir_right@
        &&& self.cursor_left == before.cursor_left
        &&& self.cursor_right == before.cursor_right
    }

    /// `self` and `model` end a sweep whose bonds and reservoirs left
    /// `visited`: with per-sweep replacement every demon is then redrawn from
    /// the pool, with per-step replacement nothing more changes.
    pub open spec fn finished_from(&self, model: &IsingModel, visited: (IsingModel, Self)) -> bool {
        &&& *model == visited.0
        &&& visited.1.replacement_mode == DemonReplacementMode::PerStep ==> *self == visited.1
        &&& visited.1.replacement_mode == DemonReplacementMode::PerSweep ==> self.refilled_from(
            &visited.1,
        )
    }

    /// The settings that no sweep changes.
    pub open spec fn same_setup(&self, before: &Self) -> bool {
        &&& self.replacement_mode == before.replacement_mode
        &&& self.bond_selection == before.bond_selection
        &&& self.reservoir_type == before.reservoir_type
        &&& self.demon_pool@ == before.demon_pool@
    }

    /// The stored energy, every demon, every current and every pool entry lie
    /// in `-b ..= b`.
    pub open spec fn within(&self, model: &IsingModel, b: int) -> bool {
        &&& -b <= model.energy <= b
        &&& all_within(self.demons_h@, b)
        &&& all_within(self.demons_v@, b)
        &&& all_within(self.current_h@, b)
        &&& all_within(self.demon_pool@, b)
    }

    /// The stored energy and every current lie within `d` of their values in
    /// `before` and `before_model`, and every demon within `d` of its value
    /// there or of an entry of the pool.
    pub open spec fn near(
        &self,
        model: &IsingModel,
        before: &Self,
        before_model: &IsingModel,
        d: int,
    ) -> bool {
        &&& -d <= model.energy - before_model.energy <= d
        &&& seqs_near_or_pool(self.demons_h@, before.demons_h@, self.demon_pool@, d)
        &&& seqs_near_or_pool(self.demons_v@, before.demons_v@, self.demon_pool@, d)
        &&& seqs_near(self.current_h@, before.current_h@, d)
    }

    /// The energy held by all demons.
    pub open spec fn demon_total(&self) -> int {
        seq_sum(self.demons_h@) + seq_sum(self.demons_v@)
    }

    /// No demon, and no entry of the pool, holds a negative energy.
    pub open spec fn demons_nonneg(&self) -> bool {
        &&& forall|i: int| 0 <= i < self.demons_h@.len() ==> #[trigger] self.demons_h@[i] >= 0
        &&& forall|i: int| 0 <= i < self.demons_v@.len() ==> #[trigger] self.demons_v@[i] >= 0
        &&& forall|i: int| 0 <= i < self.demon_pool@.len() ==> #[trigger] self.demon_pool@[i] >= 0
    }

    /// Thermal demon dynamics for an `l x l` lattice. The pool is
    /// `demon_pool`; the horizontal demons take its first `l * l`
    /// entries and the vertical ones the next `l * l`, wrapping around the
    /// pool, and the pool's cursor stands after them. The currents start at
    /// 0. Random bond selection draws from the bond table; quenched
    /// reservoirs hold `RESERVOIR_SIZE` spins, of which `n_up_left` (left)
    /// and `n_up_right` (right) point up; the two coins of `reservoir_flip`
    /// decide the flips of annealed reservoirs (see `reservoir_coin`).
    /// The random numbers are drawn from a generator seeded with `seed`.
    pub fn new(
        l: usize,
        demon_pool: Vec<i32>,
        replacement_mode: DemonReplacementMode,
        bond_selection: BondSelection,
        reservoir_type: ReservoirType,
        reservoir_flip: Vec<Bernoulli>,
        n_up_left: usize,
        n_up_right: usize,
        seed: u64,
    ) -> (d: Self)
        requires
            side_fits(l as int),
            l >= 1,
            demon_pool@.len() > 0,
            reservoir_flip@.len() == 2,
        ensures
            d.wf(l as int),
            d.replacement_mode == replacement_mode,
            d.bond_selection == bond_selection,
            d.reservoir_type == reservoir_type,
            d.demon_pool@ == demon_pool@,
            d.reservoir_flip@ == reservoir_flip@,
            d.cursor_left == 0,
            d.cursor_right == 0,
            reservoir_type == ReservoirType::Annealed ==> d.reservoir_left@.len() == 0
                && d.reservoir_right@.len() == 0,
            reservoir_type == ReservoirType::Quenched ==> {
                &&& reservoir_holds(d.reservoir_left@, RESERVOIR_SIZE as int, n_up_left as int)
                &&& reservoir_holds(d.reservoir_right@, RESERVOIR_SIZE as int, n_up_right as int)
            },
            d.demons_h@ == Seq::new(
                (l * l) as nat,
                |i: int| d.demon_pool@[i % (d.demon_pool@.len() as int)],
            ),
            d.demons_v@ == Seq::new(
                (l * l) as nat,
                |i: int| d.demon_pool@[(l * l + i) % (d.demon_pool@.len() as int)],
            ),
            d.demon_pool_cursor == (2 * l * l) % (d.demon_pool@.len() as int),
            d.current_h@ == Seq::new((l - 1) as nat, |i: int| 0i32),
    {
        proof {
            lemma_side_fits(l as int);
        }
        let mut rng = seeded_small_rng(seed);
        let current_h = vec![0; l - 1];
        let pool_len = demon_pool.len();
        let n = l * l;
        let mut demons_h: Vec<i32> = Vec::with_capacity(n);
        let mut i: usize = 0;
        while i < n
            invariant
                0 <= i <= n,
                pool_len == demon_pool@.len(),
                pool_len > 0,
                demons_h@ =~= Seq::new(i as nat, |k: int| demon_pool@[k % (pool_len as int)]),
            decreases n - i,
        {
            demons_h.push(demon_pool[i % pool_len]);
            i = i + 1;
        }
        let mut demons_v: Vec<i32> = Vec::with_capacity(n);
        let mut i: usize = 0;
        while i < n
            invariant
                0 <= i <= n,
                n == l * l,
                n <= 0x3fff_ffff,
                pool_len == demon_pool@.len(),
                pool_len > 0,
                demons_v@ =~= Seq::new(
                    i as nat,
                    |k: int| demon_pool@[(l * l + k) % (pool_len as int)],
                ),
            decreases n - i,
        {
            demons_v.push(demon_pool[(n + i) % pool_len]);
            i = i + 1;
        }
        let demon_pool_cursor = (2 * n) % pool_len;
        let (edges, n_horizontal, n_internal, n_total) = if bond_selection == BondSelection::Random {
            build_edges(l)
        } else {
            proof {
                assert(l * (l - 1) == l * l - l) by (nonlinear_arith);
                assert(2 * l * l == 2 * (l * l)) by (nonlinear_arith);
            }
            (Vec::new(), l * (l - 1), l * (l - 1) + l * l, 2 * l * l + 2 * l)
        };
        let (reservoir_left, reservoir_right) = if reservoir_type == ReservoirType::Quenched {
            (
                build_reservoir(RESERVOIR_SIZE, n_up_left, &mut rng),
                build_reservoir(RESERVOIR_SIZE, n_up_right, &mut rng),
            )
        } else {
            (Vec::new(), Vec::new())
        };
        assert(current_h@ =~= Seq::new((l - 1) as nat, |i: int| 0i32));
        proof {
            assert(2 * l * l == 2 * (l * l)) by (nonlinear_arith);
        }
        Self {
            demons_h,
            demons_v,
            current_h,
            replacement_mode,
            bond_selection,
            reservoir_type,
            reservoir_flip,
            demon_pool,
            demon_pool_cursor,
            edges,
            n_horizontal,
            n_internal,
            n_total,
            reservoir_left,
            reservoir_right,
            cursor_left: 0,
            cursor_right: 0,
            rng,
        }
    }

    /// The pool entry under the cursor; the cursor moves on, wrapping.
    fn next_demon_from_pool(&mut self) -> (d: i32)
        requires
            old(self).demon_pool@.len() > 0,
            old(self).demon_pool_cursor < old(self).demon_pool@.len(),
        ensures
            d == old(self).demon_pool@[old(self).demon_pool_cursor as int],
            final(self).demon_pool_cursor == (old(self).demon_pool_cursor + 1) % (old(
                self,
            ).demon_pool@.len() as int),
            final(self).demon_pool@ == old(self).demon_pool@,
            final(self).demons_h == old(self).demons_h,
            final(self).demons_v == old(self).demons_v,
            final(self).current_h == old(self).current_h,
            final(self).replacement_mode == old(self).replacement_mode,
            final(self).rng == old(self).rng,
            final(self).bond_selection == old(self).bond_selection,
            final(self).reservoir_type == old(self).reservoir_type,
            final(self).reservoir_flip == old(self).reservoir_flip,
            final(self).edges == old(self).edges,
            final(self).n_horizontal == old(self).n_horizontal,
            final(self).n_internal == old(self).n_internal,
            final(self).n_total == old(self).n_total,
            final(self).reservoir_left == old(self).reservoir_left,
            final(self).reservoir_right == old(self).reservoir_right,
            final(self).cursor_left == old(self).cursor_left,
            final(self).cursor_right == old(self).cursor_right,
    {
        let d = self.demon_pool[self.demon_pool_cursor];
        let n = self.demon_pool.len();
        self.demon_pool_cursor = (self.demon_pool_cursor + 1) % n;
        d
    }

    proof fn lemma_near_trans(
        a: &Self,
        am: &IsingModel,
        b: &Self,
        bm: &IsingModel,
        c: &Self,
        cm: &IsingModel,
        d1: int,
        d2: int,
    )
        requires
            a.near(am, b, bm, d1),
            b.near(bm, c, cm, d2),
            a.demon_pool@ == b.demon_pool@,
            d1 >= 0,
            d2 >= 0,
        ensures
            a.near(am, c, cm, d1 + d2),
    {
        lemma_near_or_pool_trans(a.demons_h@, b.demons_h@, c.demons_h@, a.demon_pool@, d1, d2);
        lemma_near_or_pool_trans(a.demons_v@, b.demons_v@, c.demons_v@, a.demon_pool@, d1, d2);
        lemma_seqs_near_trans(a.current_h@, b.current_h@, c.current_h@, d1, d2);
    }

    proof fn lemma_near_within(a: &Self, am: &IsingModel, b: &Self, bm: &IsingModel, bound: int, d: int)
        requires
            a.near(am, b, bm, d),
            b.within(bm, bound),
            a.demon_pool@ == b.demon_pool@,
            d >= 0,
        ensures
            a.within(am, bound + d),
    {
        lemma_near_or_pool_within(a.demons_h@, b.demons_h@, a.demon_pool@, bound, d);
        lemma_near_or_pool_within(a.demons_v@, b.demons_v@, a.demon_pool@, bound, d);
        lemma_within_near(a.current_h@, b.current_h@, bound, d);
    }

    proof fn lemma_near_refl(a: &Self, am: &IsingModel, d: int)
        requires
            d >= 0,
        ensures
            a.near(am, a, am, d),
    {
        lemma_near_gives_near_or_pool(a.demons_h@, a.demons_h@, a.demon_pool@, d);
        lemma_near_gives_near_or_pool(a.demons_v@, a.demons_v@, a.demon_pool@, d);
    }

    /// After an exchange attempt paid by entry `idx` of `demons`, the per-step
    /// replacement of that demon by the next pool entry.
    fn replace_after_step(&mut self, horizontal: bool, idx: usize, Ghost(l): Ghost<int>)
        requires
            old(self).wf(l),
            idx < old(self).demons_h@.len(),
        ensures
            final(self).wf(l),
            final(self).same_setup(old(self)),
            final(self).current_h == old(self).current_h,
            final(self).edges == old(self).edges,
            final(self).n_total == old(self).n_total,
            final(self).reservoir_flip == old(self).reservoir_flip,
            final(self).rng == old(self).rng,
            old(self).replacement_mode == DemonReplacementMode::PerSweep ==> {
                &&& final(self).demons_h == old(self).demons_h
                &&& final(self).demons_v == old(self).demons_v
                &&& final(self).demon_pool_cursor == old(self).demon_pool_cursor
            },
            old(self).replacement_mode == DemonReplacementMode::PerStep ==> {
                let fresh = old(self).demon_pool@[old(self).demon_pool_cursor as int];
                &&& horizontal ==> final(self).demons_h@ == old(self).demons_h@.update(idx as int, fresh)
                    && final(self).demons_v == old(self).demons_v
                &&& !horizontal ==> final(self).demons_v@ == old(self).demons_v@.update(idx as int, fresh)
                    && final(self).demons_h == old(self).demons_h
                &&& final(self).demon_pool_cursor == (old(self).demon_pool_cursor + 1) % (old(
                    self,
                ).demon_pool@.len() as int)
            },
            final(self).reservoir_left == old(self).reservoir_left,
            final(self).reservoir_right == old(self).reservoir_right,
            final(self).cursor_left == old(self).cursor_left,
            final(self).cursor_right == old(self).cursor_right,
            seqs_near_or_pool(final(self).demons_h@, old(self).demons_h@, old(self).demon_pool@, 0),
            seqs_near_or_pool(final(self).demons_v@, old(self).demons_v@, old(self).demon_pool@, 0),
            old(self).demons_nonneg() ==> final(self).demons_nonneg(),
    {
        proof {
            lemma_near_gives_near_or_pool(self.demons_h@, self.demons_h@, self.demon_pool@, 0);
            lemma_near_gives_near_or_pool(self.demons_v@, self.demons_v@, self.demon_pool@, 0);
        }
        if self.replacement_mode == DemonReplacementMode::PerStep {
            let ghost c = self.demon_pool_cursor as int;
            let new_d = self.next_demon_from_pool();
            if horizontal {
                proof {
                    lemma_near_or_pool_replace(self.demons_h@, self.demon_pool@, idx as int, c, 0);
                }
                self.demons_h.set(idx, new_d);
            } else {
                proof {
                    lemma_near_or_pool_replace(self.demons_v@, self.demon_pool@, idx as int, c, 0);
                }
                self.demons_v.set(idx, new_d);
            }
        }
    }

    /// The exchange across the horizontal bond from row `y`, column `x` to
    /// column `x + 1`, paid by that bond's demon; an exchange carries the
    /// left spin's value into the current through column `x`.
    fn process_horizontal_bond(&mut self, model: &mut IsingModel, y: usize, x: usize)
        requires
            old(model).wf(),
            old(self).wf(old(model).l as int),
            y < old(model).l,
            x + 1 < old(model).l,
            old(self).within(old(model), i32::MAX - 20),
        ensures
            bond_move((*final(model), *final(self)), (*old(model), *old(self)), y * (old(model).l - 1) + x),
            final(model).wf(),
            final(self).reservoir_left == old(self).reservoir_left,
            final(self).reservoir_right == old(self).reservoir_right,
            final(self).cursor_left == old(self).cursor_left,
            final(self).cursor_right == old(self).cursor_right,
            final(self).wf(final(model).l as int),
            final(model).l == old(model).l,
            final(model).neighbors@ == old(model).neighbors@,
            final(self).near(final(model), old(self), old(model), 20),
            final(self).same_setup(old(self)),
            old(self).replacement_mode == DemonReplacementMode::PerSweep ==> final(model).energy
                + final(self).demon_total() == old(model).energy + old(self).demon_total(),
            final(model).total_spin == old(model).total_spin,
            old(self).demons_nonneg() ==> final(self).demons_nonneg(),
            old(model).is_periodic() && old(model).l >= 3 && old(model).energy_consistent()
                ==> final(model).energy_consistent(),
    {
        let l = model.l;
        proof {
            lemma_side_fits(l as int);
            assert(y * l + l <= l * l) by (nonlinear_arith)
                requires
                    y < l,
            ;
            lemma_site_row_col(l as int, y as int, x as int);
            lemma_horizontal_bond_index(l as int, y as int, x as int);
        }
        let idx1 = y * l + x;
        let idx2 = idx1 + 1;
        if model.lattice[idx1] == model.lattice[idx2] {
            return;
        }
        proof {
            assert(model.neighbors@[idx1 as int][1] == idx1 + 1);
        }
        let current = model.lattice[idx1];
        let ghost h0 = self.demons_h@;
        let exchanged = demon_exchange(model, &mut self.demons_h, idx1, idx2);
        if exchanged {
            let c = self.current_h[x] + current;
            self.current_h.set(x, c);
            proof {
                lemma_seqs_near_update(old(self).current_h@, x as int, c, 20);
            }
        }
        proof {
            assert(seqs_near(self.demons_h@, h0, 20)) by {
                assert forall|i: int| 0 <= i < self.demons_h@.len() implies -20 <= #[trigger] self.demons_h@[i] - h0[i] <= 20 by {
                    if i != idx1 {
                        assert(self.demons_h@[i] == h0[i]);
                    }
                }
            }
            lemma_near_gives_near_or_pool(self.demons_h@, h0, self.demon_pool@, 20);
            lemma_near_gives_near_or_pool(self.demons_v@, self.demons_v@, self.demon_pool@, 20);
        }
        let ghost s1 = *self;
        self.replace_after_step(true, idx1, Ghost(model.l as int));
        proof {
            lemma_near_or_pool_trans(self.demons_h@, s1.demons_h@, old(self).demons_h@, self.demon_pool@, 0, 20);
            lemma_near_or_pool_trans(self.demons_v@, s1.demons_v@, old(self).demons_v@, self.demon_pool@, 0, 20);
        }
    }

    /// The exchange across the vertical bond from row `y`, column `x` to the
    /// row below (the bottom row's bond wraps to the top row), paid by that
    /// bond's demon.
    fn process_vertical_bond(&mut self, model: &mut IsingModel, y: usize, x: usize)
        requires
            old(model).wf(),
            old(self).wf(old(model).l as int),
            y < old(model).l,
            x < old(model).l,
            old(self).within(old(model), i32::MAX - 20),
        ensures
            bond_move((*final(model), *final(self)), (*old(model), *old(self)), num_horizontal(old(model).l as int) + y * old(model).l + x),
            final(model).wf(),
            final(self).reservoir_left == old(self).reservoir_left,
            final(self).reservoir_right == old(self).reservoir_right,
            final(self).cursor_left == old(self).cursor_left,
            final(self).cursor_right == old(self).cursor_right,
            final(self).wf(final(model).l as int),
            final(model).l == old(model).l,
            final(model).neighbors@ == old(model).neighbors@,
            final(self).near(final(model), old(self), old(model), 20),
            final(self).same_setup(old(self)),
            old(self).replacement_mode == DemonReplacementMode::PerSweep ==> final(model).energy
                + final(self).demon_total() == old(model).energy + old(self).demon_total(),
            final(model).total_spin == old(model).total_spin,
            old(self).demons_nonneg() ==> final(self).demons_nonneg(),
            old(model).is_periodic() && old(model).l >= 3 && old(model).energy_consistent()
                ==> final(model).energy_consistent(),
    {
        let l = model.l;
        proof {
            lemma_vertical_bond_index(l as int, y as int, x as int);
            lemma_side_fits(l as int);
            assert(y * l + l <= l * l) by (nonlinear_arith)
                requires
                    y < l,
            ;
            if y == l - 1 {
                assert(y * l == l * l - l) by (nonlinear_arith)
                    requires
                        y == l - 1,
                ;
            } else {
                assert(y * l + 2 * l <= l * l) by (nonlinear_arith)
                    requires
                        y + 1 < l,
                ;
            }
        }
        let idx1 = y * l + x;
        let idx2 = if y == l - 1 {
            x
        } else {
            idx1 + l
        };
        if model.lattice[idx1] == model.lattice[idx2] {
            return;
        }
        proof {
            assert(model.neighbors@[idx1 as int][2] == idx2);
        }
        let ghost v0 = self.demons_v@;
        demon_exchange(model, &mut self.demons_v, idx1, idx2);
        proof {
            assert(seqs_near(self.demons_v@, v0, 20)) by {
                assert forall|i: int| 0 <= i < self.demons_v@.len() implies -20 <= #[trigger] self.demons_v@[i] - v0[i] <= 20 by {
                    if i != idx1 {
                        assert(self.demons_v@[i] == v0[i]);
                    }
                }
            }
            lemma_near_gives_near_or_pool(self.demons_v@, v0, self.demon_pool@, 20);
            lemma_near_gives_near_or_pool(self.demons_h@, self.demons_h@, self.demon_pool@, 20);
        }
        let ghost s1 = *self;
        self.replace_after_step(false, idx1, Ghost(model.l as int));
        proof {
            lemma_near_or_pool_trans(self.demons_h@, s1.demons_h@, old(self).demons_h@, self.demon_pool@, 0, 20);
            lemma_near_or_pool_trans(self.demons_v@, s1.demons_v@, old(self).demons_v@, self.demon_pool@, 0, 20);
        }
    }

    /// The visit of bond `r`: an internal bond with opposite spins offers
    /// the exchange to its demon, a reservoir bond couples its site to its
    /// reservoir (see `couple_reservoir_bond`), an annealed one flipping the
    /// site when its coin came up `heads`. Only that coin depends on `heads`.
    pub fn visit_bond(&mut self, model: &mut IsingModel, r: usize, heads: bool)
        requires
            old(model).wf(),
            old(self).wf(old(model).l as int),
            old(self).bond_selection == BondSelection::Random,
            old(self).within(old(model), i32::MAX - 20),
            r < old(self).n_total,
        ensures
            bond_move((*final(model), *final(self)), (*old(model), *old(self)), r as int),
            r >= num_internal(old(model).l as int) && old(self).reservoir_type
                == ReservoirType::Annealed ==> (if heads {
                final(model).flipped_from(old(model), edge_spec(old(model).l as int, r as int).0)
            } else {
                final(model).same_as(old(model))
            }),
            final(self).rng == old(self).rng,
            final(self).reservoir_flip@ == old(self).reservoir_flip@,
            final(self).edges@ == old(self).edges@,
            final(self).n_total == old(self).n_total,
            final(model).wf(),
            final(self).wf(final(model).l as int),
            final(model).l == old(model).l,
            final(model).neighbors@ == old(model).neighbors@,
            final(self).same_setup(old(self)),
            final(self).near(final(model), old(self), old(model), 20),
            old(self).demons_nonneg() ==> final(self).demons_nonneg(),
            old(model).is_periodic() && old(model).l >= 3 && old(model).energy_consistent()
                ==> final(model).energy_consistent(),
    {
        let l = model.l;
        let ghost li = l as int;
        proof {
            lemma_side_fits(li);
            assert(num_bonds(li) > 0) by (nonlinear_arith)
                requires
                    li >= 1,
            ;
        }
        proof {
            lemma_edge_sites(li, model.neighbors@, r as int);
            assert(self.edges@[r as int][0] as int == edge_spec(li, r as int).0);
        }
        let e = self.edges[r];
        let a = e[0] as usize;
        if r < self.n_internal {
            let b = e[1] as usize;
            if model.lattice[a] == model.lattice[b] {
                return;
            }
            if r < self.n_horizontal {
                let current = model.lattice[a];
                let ghost h0 = self.demons_h@;
                let exchanged = demon_exchange(model, &mut self.demons_h, a, b);
                if exchanged {
                    let x = a % l;
                    let c = self.current_h[x] + current;
                    self.current_h.set(x, c);
                    proof {
                        lemma_seqs_near_update(old(self).current_h@, x as int, c, 20);
                    }
                }
                proof {
                    assert forall|i: int| 0 <= i < self.demons_h@.len() implies -20 <= #[trigger] self.demons_h@[i] - h0[i] <= 20 by {
                        if i != a {
                            assert(self.demons_h@[i] == h0[i]);
                        }
                    }
                    lemma_near_gives_near_or_pool(self.demons_h@, h0, self.demon_pool@, 20);
                    lemma_near_gives_near_or_pool(self.demons_v@, self.demons_v@, self.demon_pool@, 20);
                }
                let ghost s1 = *self;
                self.replace_after_step(true, a, Ghost(model.l as int));
                proof {
                    lemma_near_or_pool_trans(self.demons_h@, s1.demons_h@, old(self).demons_h@, self.demon_pool@, 0, 20);
                    lemma_near_or_pool_trans(self.demons_v@, s1.demons_v@, old(self).demons_v@, self.demon_pool@, 0, 20);
                }
            } else {
                let ghost v0 = self.demons_v@;
                demon_exchange(model, &mut self.demons_v, a, b);
                proof {
                    assert forall|i: int| 0 <= i < self.demons_v@.len() implies -20 <= #[trigger] self.demons_v@[i] - v0[i] <= 20 by {
                        if i != a {
                            assert(self.demons_v@[i] == v0[i]);
                        }
                    }
                    lemma_near_gives_near_or_pool(self.demons_v@, v0, self.demon_pool@, 20);
                    lemma_near_gives_near_or_pool(self.demons_h@, self.demons_h@, self.demon_pool@, 20);
                }
                let ghost s1 = *self;
                self.replace_after_step(false, a, Ghost(model.l as int));
                proof {
                    lemma_near_or_pool_trans(self.demons_h@, s1.demons_h@, old(self).demons_h@, self.demon_pool@, 0, 20);
                    lemma_near_or_pool_trans(self.demons_v@, s1.demons_v@, old(self).demons_v@, self.demon_pool@, 0, 20);
                }
            }
        } else {
            couple_reservoir_bond(
                model,
                a,
                e[1],
                self.reservoir_type,
                &self.reservoir_left,
                &self.reservoir_right,
                &mut self.cursor_left,
                &mut self.cursor_right,
                heads,
            );
        }
    }

    /// Visits bond `r`, tossing first the coin that the bond calls for, and
    /// returns that coin and how it came up, or `None` when no coin is tossed.
    /// A reservoir bond of an annealed reservoir tosses coin 0 when its
    /// boundary spin times `1 - 2 * side` is 1 (an up spin on the left, a down
    /// spin on the right) and coin 1 otherwise, and its site flips exactly on
    /// heads; every other bond tosses none (see `visit_bond`).
    pub fn visit_drawn_bond(&mut self, model: &mut IsingModel, r: usize) -> (tossed: Option<(usize, bool)>)
        requires
            old(model).wf(),
            old(self).wf(old(model).l as int),
            old(self).bond_selection == BondSelection::Random,
            old(self).within(old(model), i32::MAX - 20),
            r < old(self).n_total,
        ensures
            ({
                let l = old(model).l as int;
                let lat = old(model).lattice@;
                let a = edge_spec(l, r as int).0;
                let b = edge_spec(l, r as int).1;
                &&& !(r >= num_internal(l) && old(self).reservoir_type == ReservoirType::Annealed) ==> tossed is None
                &&& r >= num_internal(l) && old(self).reservoir_type == ReservoirType::Annealed ==> {
                    &&& tossed matches Some((c, _)) && c == (if (1 - 2 * b) * lat[a] == 1 {
                        0int
                    } else {
                        1int
                    })
                    &&& tossed matches Some((_, h)) ==> if h {
                        final(model).flipped_from(old(model), a)
                    } else {
                        final(model).same_as(old(model))
                    }
                }
            }),
            bond_move((*final(model), *final(self)), (*old(model), *old(self)), r as int),
            final(self).reservoir_flip@ == old(self).reservoir_flip@,
            final(self).edges@ == old(self).edges@,
            final(self).n_total == old(self).n_total,
            final(model).wf(),
            final(self).wf(final(model).l as int),
            final(model).l == old(model).l,
            final(model).neighbors@ == old(model).neighbors@,
            final(self).same_setup(old(self)),
            final(self).near(final(model), old(self), old(model), 20),
            old(self).demons_nonneg() ==> final(self).demons_nonneg(),
            old(model).is_periodic() && old(model).l >= 3 && old(model).energy_consistent()
                ==> final(model).energy_consistent(),
    {
        let l = model.l;
        let ghost li = l as int;
        proof {
            lemma_side_fits(li);
            assert(num_bonds(li) > 0) by (nonlinear_arith)
                requires
                    li >= 1,
            ;
            lemma_edge_sites(li, model.neighbors@, r as int);
            assert(self.edges@[r as int][0] as int == edge_spec(li, r as int).0);
            assert(self.edges@[r as int][1] as int == edge_spec(li, r as int).1);
        }
        let tossed = if r >= self.n_internal && self.reservoir_type == ReservoirType::Annealed {
            let e = self.edges[r];
            let coin = reservoir_coin_index(e[1], model.lattice[e[0] as usize]);
            Some((coin, toss(&mut self.rng, &self.reservoir_flip[coin])))
        } else {
            None
        };
        let heads = match tossed {
            Some((_, h)) => h,
            None => false,
        };
        self.visit_bond(model, r, heads);
        tossed
    }

    /// One randomly drawn bond, visited with the coin it calls for (see
    /// `visit_drawn_bond`).
    fn step(&mut self, model: &mut IsingModel) -> (r: Ghost<int>)
        requires
            old(model).wf(),
            old(self).wf(old(model).l as int),
            old(self).bond_selection == BondSelection::Random,
            old(self).within(old(model), i32::MAX - 20),
        ensures
            bond_move((*final(model), *final(self)), (*old(model), *old(self)), r@),
            final(model).wf(),
            final(self).wf(final(model).l as int),
            final(model).l == old(model).l,
            final(model).neighbors@ == old(model).neighbors@,
            final(self).same_setup(old(self)),
            final(self).near(final(model), old(self), old(model), 20),
            old(self).demons_nonneg() ==> final(self).demons_nonneg(),
            old(model).is_periodic() && old(model).l >= 3 && old(model).energy_consistent()
                ==> final(model).energy_consistent(),
    {
        let l = model.l;
        let ghost li = l as int;
        proof {
            lemma_side_fits(li);
            assert(num_bonds(li) > 0) by (nonlinear_arith)
                requires
                    li >= 1,
            ;
        }
        let r = random_below(&mut self.rng, self.n_total);
        self.visit_drawn_bond(model, r);
        Ghost(r as int)
    }

    /// The horizontal bonds that start in the columns of parity `start_x`,
    /// row by row.
    fn horizontal_pass(&mut self, model: &mut IsingModel, start_x: usize)
        requires
            old(model).wf(),
            old(self).wf(old(model).l as int),
            start_x <= 1,
            old(self).within(old(model), i32::MAX - 20 * (old(model).l * old(model).l)),
        ensures
            exists|trace: Seq<(IsingModel, CreutzThermalDynamics)>|
                #[trigger] visit_path(
                    bond_step(),
                    trace,
                    (*old(model), *old(self)),
                    (*final(model), *final(self)),
                    h_pass_bonds(old(model).l as int, start_x as int, old(model).l as int),
                ),
            final(model).wf(),
            final(self).wf(final(model).l as int),
            final(model).l == old(model).l,
            final(model).neighbors@ == old(model).neighbors@,
            final(self).same_setup(old(self)),
            final(self).reservoir_left == old(self).reservoir_left,
            final(self).reservoir_right == old(self).reservoir_right,
            final(self).cursor_left == old(self).cursor_left,
            final(self).cursor_right == old(self).cursor_right,
            final(self).near(final(model), old(self), old(model), 20 * (old(model).l * old(model).l)),
            old(self).replacement_mode == DemonReplacementMode::PerSweep ==> final(model).energy
                + final(self).demon_total() == old(model).energy + old(self).demon_total(),
            final(model).total_spin == old(model).total_spin,
            old(self).demons_nonneg() ==> final(self).demons_nonneg(),
            old(model).is_periodic() && old(model).l >= 3 && old(model).energy_consistent()
                ==> final(model).energy_consistent(),
    {
        let l = model.l;
        let ghost s0 = *self;
        let ghost m0 = *model;
        let ghost periodic0 = model.is_periodic() && l >= 3 && model.energy_consistent();
        let ghost mut k: int = 0;
        let ghost mut rl: int = 0;
        let ghost mut trace = seq![(*model, *self)];
        let ghost mut order: Seq<int> = Seq::empty();
        proof {
            lemma_side_fits(l as int);
            Self::lemma_near_refl(self, model, 0);
        }
        let mut y: usize = 0;
        while y < l
            invariant
                model.wf(),
                self.wf(l as int),
                model.l == l,
                model.neighbors@ == m0.neighbors@,
                self.same_setup(&s0),
                self.reservoir_left == s0.reservoir_left,
                self.reservoir_right == s0.reservoir_right,
                self.cursor_left == s0.cursor_left,
                self.cursor_right == s0.cursor_right,
                s0.within(&m0, i32::MAX - 20 * (l * l)),
                0 <= k,
                self.near(model, &s0, &m0, 20 * k),
                s0.replacement_mode == DemonReplacementMode::PerSweep ==> model.energy
                    + self.demon_total() == m0.energy + s0.demon_total(),
                model.total_spin == m0.total_spin,
                s0.demons_nonneg() ==> self.demons_nonneg(),
                periodic0 ==> model.is_periodic() && model.l >= 3 && model.energy_consistent(),
                start_x <= 1,
                0 <= y <= l,
                rl == y * l,
                k <= rl,
                visit_path(bond_step(), trace, (m0, s0), (*model, *self), order),
                order == h_pass_bonds(l as int, start_x as int, y as int),
            decreases l - y,
        {
            proof {
                assert(y * l + l <= l * l) by (nonlinear_arith)
                    requires
                        y < l,
                ;
                assert((y + 1) * l == y * l + l) by (nonlinear_arith);
            }
            let mut x: usize = start_x;
            let ghost mut j: int = 0;
            let ghost row = row_h_bonds(l as int, start_x as int, y as int);
            while x + 1 < l
                invariant
                    model.wf(),
                    self.wf(l as int),
                    model.l == l,
                    model.neighbors@ == m0.neighbors@,
                    self.same_setup(&s0),
                    self.reservoir_left == s0.reservoir_left,
                    self.reservoir_right == s0.reservoir_right,
                    self.cursor_left == s0.cursor_left,
                    self.cursor_right == s0.cursor_right,
                    s0.within(&m0, i32::MAX - 20 * (l * l)),
                    0 <= k,
                    self.near(model, &s0, &m0, 20 * k),
                    s0.replacement_mode == DemonReplacementMode::PerSweep ==> model.energy
                    + self.demon_total() == m0.energy + s0.demon_total(),
                    model.total_spin == m0.total_spin,
                    s0.demons_nonneg() ==> self.demons_nonneg(),
                    periodic0 ==> model.is_periodic() && model.l >= 3 && model.energy_consistent(),
                    start_x <= 1,
                    0 <= y < l,
                    rl == y * l,
                    rl + l <= l * l,
                    x <= l,
                    k <= rl + x,
                    l >= 1,
                    x == start_x + 2 * j,
                    0 <= j,
                    row == row_h_bonds(l as int, start_x as int, y as int),
                    visit_path(bond_step(), trace, (m0, s0), (*model, *self), order),
                    order == h_pass_bonds(l as int, start_x as int, y as int) + row.take(j),
                decreases l - x,
            {
                let ghost s1 = *self;
                let ghost m1 = *model;
                proof {
                    Self::lemma_near_within(self, model, &s0, &m0, i32::MAX - 20 * (l * l), 20 * k);
                }
                self.process_horizontal_bond(model, y, x);
                proof {
                    Self::lemma_near_trans(self, model, &s1, &m1, &s0, &m0, 20, 20 * k);
                    k = k + 1;
                    let r = y * (l - 1) + x;
                    lemma_visit_path_push(bond_step(), trace, (m0, s0), (m1, s1), (*model, *self), order, r);
                    assert(row[j] == r);
                    assert(order.push(r) =~= h_pass_bonds(l as int, start_x as int, y as int) + row.take(j + 1));
                    trace = trace.push((*model, *self));
                    order = order.push(r);
                    j = j + 1;
                }
                x = x + 2;
            }
            proof {
                rl = rl + l;
                assert(row.take(j) =~= row);
                assert(h_pass_bonds(l as int, start_x as int, y + 1) == h_pass_bonds(
                    l as int,
                    start_x as int,
                    y as int,
                ) + row);
            }
            y = y + 1;
        }
    }

    /// The vertical bonds that start in the rows of parity `start_y`, row by
    /// row.
    fn vertical_pass(&mut self, model: &mut IsingModel, start_y: usize)
        requires
            old(model).wf(),
            old(self).wf(old(model).l as int),
            start_y <= 1,
            old(self).within(old(model), i32::MAX - 20 * (old(model).l * old(model).l)),
        ensures
            exists|trace: Seq<(IsingModel, CreutzThermalDynamics)>|
                #[trigger] visit_path(
                    bond_step(),
                    trace,
                    (*old(model), *old(self)),
                    (*final(model), *final(self)),
                    v_pass_bonds(
                        old(model).l as int,
                        start_y as int,
                        (old(model).l - start_y + 1) / 2,
                    ),
                ),
            final(model).wf(),
            final(self).wf(final(model).l as int),
            final(model).l == old(model).l,
            final(model).neighbors@ == old(model).neighbors@,
            final(self).same_setup(old(self)),
            final(self).reservoir_left == old(self).reservoir_left,
            final(self).reservoir_right == old(self).reservoir_right,
            final(self).cursor_left == old(self).cursor_left,
            final(self).cursor_right == old(self).cursor_right,
            final(self).near(final(model), old(self), old(model), 20 * (old(model).l * old(model).l)),
            old(self).replacement_mode == DemonReplacementMode::PerSweep ==> final(model).energy
                + final(self).demon_total() == old(model).energy + old(self).demon_total(),
            final(model).total_spin == old(model).total_spin,
            old(self).demons_nonneg() ==> final(self).demons_nonneg(),
            old(model).is_periodic() && old(model).l >= 3 && old(model).energy_consistent()
                ==> final(model).energy_consistent(),
    {
        let l = model.l;
        let ghost s0 = *self;
        let ghost m0 = *model;
        let ghost periodic0 = model.is_periodic() && l >= 3 && model.energy_consistent();
        let ghost mut k: int = 0;
        let ghost mut rows: int = 0;
        let ghost mut done: int = 0;
        let ghost mut trace = seq![(*model, *self)];
        let ghost mut order: Seq<int> = Seq::empty();
        proof {
            lemma_side_fits(l as int);
            Self::lemma_near_refl(self, model, 0);
        }
        let mut y: usize = start_y;
        while y < l
            invariant
                model.wf(),
                self.wf(l as int),
                model.l == l,
                model.neighbors@ == m0.neighbors@,
                self.same_setup(&s0),
                self.reservoir_left == s0.reservoir_left,
                self.reservoir_right == s0.reservoir_right,
                self.cursor_left == s0.cursor_left,
                self.cursor_right == s0.cursor_right,
                s0.within(&m0, i32::MAX - 20 * (l * l)),
                0 <= k,
                self.near(model, &s0, &m0, 20 * k),
                s0.replacement_mode == DemonReplacementMode::PerSweep ==> model.energy
                    + self.demon_total() == m0.energy + s0.demon_total(),
                model.total_spin == m0.total_spin,
                s0.demons_nonneg() ==> self.demons_nonneg(),
                periodic0 ==> model.is_periodic() && model.l >= 3 && model.energy_consistent(),
                start_y <= 1,
                0 <= y <= l + 1,
                2 * rows == y - start_y,
                done == rows * l,
                k <= done,
                visit_path(bond_step(), trace, (m0, s0), (*model, *self), order),
                order == v_pass_bonds(l as int, start_y as int, rows),
            decreases l + 1 - y,
        {
            proof {
                assert(y * l + l <= l * l) by (nonlinear_arith)
                    requires
                        y < l,
                ;
                assert((y + 1) * l == y * l + l) by (nonlinear_arith);
                assert((y + 2) * l == y * l + 2 * l) by (nonlinear_arith);
                assert(done + l <= l * l) by (nonlinear_arith)
                    requires
                        done == rows * l,
                        rows + 1 <= l,
                        l >= 0,
                ;
            }
            let mut x: usize = 0;
            let ghost row = row_v_bonds(l as int, y as int);
            while x < l
                invariant
                    model.wf(),
                    self.wf(l as int),
                    model.l == l,
                    model.neighbors@ == m0.neighbors@,
                    self.same_setup(&s0),
                    self.reservoir_left == s0.reservoir_left,
                    self.reservoir_right == s0.reservoir_right,
                    self.cursor_left == s0.cursor_left,
                    self.cursor_right == s0.cursor_right,
                    s0.within(&m0, i32::MAX - 20 * (l * l)),
                    0 <= k,
                    self.near(model, &s0, &m0, 20 * k),
                    s0.replacement_mode == DemonReplacementMode::PerSweep ==> model.energy
                    + self.demon_total() == m0.energy + s0.demon_total(),
                    model.total_spin == m0.total_spin,
                    s0.demons_nonneg() ==> self.demons_nonneg(),
                    periodic0 ==> model.is_periodic() && model.l >= 3 && model.energy_consistent(),
                    0 <= y < l,
                    x <= l,
                    done + l <= l * l,
                    k <= done + x,
                    row == row_v_bonds(l as int, y as int),
                    visit_path(bond_step(), trace, (m0, s0), (*model, *self), order),
                    order == v_pass_bonds(l as int, start_y as int, rows) + row.take(x as int),
                decreases l - x,
            {
                let ghost s1 = *self;
                let ghost m1 = *model;
                proof {
                    Self::lemma_near_within(self, model, &s0, &m0, i32::MAX - 20 * (l * l), 20 * k);
                }
                self.process_vertical_bond(model, y, x);
                proof {
                    Self::lemma_near_trans(self, model, &s1, &m1, &s0, &m0, 20, 20 * k);
                    k = k + 1;
                    let r = num_horizontal(l as int) + y * l + x;
                    lemma_visit_path_push(bond_step(), trace, (m0, s0), (m1, s1), (*model, *self), order, r);
                    assert(row[x as int] == r);
                    assert(order.push(r) =~= v_pass_bonds(l as int, start_y as int, rows) + row.take(x + 1));
                    trace = trace.push((*model, *self));
                    order = order.push(r);
                }
                x = x + 1;
            }
            proof {
                assert((rows + 1) * l == rows * l + l) by (nonlinear_arith);
                assert(row.take(l as int) =~= row);
                assert(v_pass_bonds(l as int, start_y as int, rows + 1) == v_pass_bonds(
                    l as int,
                    start_y as int,
                    rows,
                ) + row_v_bonds(l as int, start_y + 2 * rows));
                rows = rows + 1;
                done = done + l;
            }
            y = y + 2;
        }
        proof {
            assert(rows == (l - start_y + 1) / 2);
            assert(rows <= l);
            assert(done <= l * l) by (nonlinear_arith)
                requires
                    done == rows * l,
                    rows <= l,
                    l >= 0,
            ;
        }
    }

    /// Every bond once: the horizontal bonds from even columns, then from odd
    /// columns, then the vertical bonds from even rows, then from odd rows.
    pub fn process_bonds_checkerboard(&mut self, model: &mut IsingModel)
        requires
            old(model).wf(),
            old(self).wf(old(model).l as int),
            old(self).within(old(model), i32::MAX - 80 * (old(model).l * old(model).l)),
        ensures
            exists|trace: Seq<(IsingModel, CreutzThermalDynamics)>|
                #[trigger] visit_path(
                    bond_step(),
                    trace,
                    (*old(model), *old(self)),
                    (*final(model), *final(self)),
                    checkerboard_bonds(old(model).l as int),
                ),
            final(model).wf(),
            final(self).wf(final(model).l as int),
            final(model).l == old(model).l,
            final(model).neighbors@ == old(model).neighbors@,
            final(self).same_setup(old(self)),
            final(self).reservoir_left == old(self).reservoir_left,
            final(self).reservoir_right == old(self).reservoir_right,
            final(self).cursor_left == old(self).cursor_left,
            final(self).cursor_right == old(self).cursor_right,
            final(self).near(final(model), old(self), old(model), 80 * (old(model).l * old(model).l)),
            old(self).replacement_mode == DemonReplacementMode::PerSweep ==> final(model).energy
                + final(self).demon_total() == old(model).energy + old(self).demon_total(),
            final(model).total_spin == old(model).total_spin,
            old(self).demons_nonneg() ==> final(self).demons_nonneg(),
            old(model).is_periodic() && old(model).l >= 3 && old(model).energy_consistent()
                ==> final(model).energy_consistent(),
    {
        let ghost n2 = model.l * model.l;
        let ghost s0 = *self;
        let ghost m0 = *model;
        proof {
            Self::lemma_near_refl(self, model, 0);
            Self::lemma_near_within(self, model, self, model, i32::MAX - 80 * n2, 60 * n2);
        }
        self.horizontal_pass(model, 0);
        let ghost s1 = *self;
        let ghost m1 = *model;
        proof {
            Self::lemma_near_within(self, model, &s0, &m0, i32::MAX - 80 * n2, 20 * n2);
            Self::lemma_near_within(self, model, self, model, i32::MAX - 60 * n2, 40 * n2);
        }
        self.horizontal_pass(model, 1);
        let ghost s2 = *self;
        let ghost m2 = *model;
        proof {
            Self::lemma_near_trans(self, model, &s1, &m1, &s0, &m0, 20 * n2, 20 * n2);
            Self::lemma_near_within(self, model, &s0, &m0, i32::MAX - 80 * n2, 40 * n2);
            Self::lemma_near_within(self, model, self, model, i32::MAX - 40 * n2, 20 * n2);
        }
        self.vertical_pass(model, 0);
        let ghost s3 = *self;
        let ghost m3 = *model;
        proof {
            Self::lemma_near_trans(self, model, &s2, &m2, &s0, &m0, 20 * n2, 40 * n2);
            Self::lemma_near_within(self, model, &s0, &m0, i32::MAX - 80 * n2, 60 * n2);
        }
        self.vertical_pass(model, 1);
        proof {
            Self::lemma_near_trans(self, model, &s3, &m3, &s0, &m0, 20 * n2, 60 * n2);
            let li = model.l as int;
            let step = bond_step();
            let o1 = h_pass_bonds(li, 0, li);
            let o2 = h_pass_bonds(li, 1, li);
            let o3 = v_pass_bonds(li, 0, (li + 1) / 2);
            let o4 = v_pass_bonds(li, 1, li / 2);
            let t1 = choose|t: Seq<(IsingModel, CreutzThermalDynamics)>| #[trigger] visit_path(step, t, (m0, s0), (m1, s1), o1);
            let t2 = choose|t: Seq<(IsingModel, CreutzThermalDynamics)>| #[trigger] visit_path(step, t, (m1, s1), (m2, s2), o2);
            let t3 = choose|t: Seq<(IsingModel, CreutzThermalDynamics)>| #[trigger] visit_path(step, t, (m2, s2), (m3, s3), o3);
            let t4 = choose|t: Seq<(IsingModel, CreutzThermalDynamics)>| #[trigger] visit_path(step, t, (m3, s3), (*model, *self), o4);
            lemma_visit_path_concat(step, t1, t2, (m0, s0), (m1, s1), (m2, s2), o1, o2);
            let t12 = t1 + t2.skip(1);
            lemma_visit_path_concat(step, t12, t3, (m0, s0), (m2, s2), (m3, s3), o1 + o2, o3);
            let t123 = t12 + t3.skip(1);
            lemma_visit_path_concat(step, t123, t4, (m0, s0), (m3, s3), (*model, *self), o1 + o2 + o3, o4);
            assert(visit_path(step, t123 + t4.skip(1), (m0, s0), (*model, *self), checkerboard_bonds(li)));
        }
    }

    /// `self` and `model` are `before` and `before_model` after one sweep.
    /// With checkerboard selection: the internal bonds visited in
    /// checkerboard order, then the boundary sites coupled to the reservoirs,
    /// which changes nothing else but their cursors. With random selection: a
    /// run of as many bond visits as there are bonds. Either way, per-sweep
    /// replacement then redraws every demon from the pool.
    pub open spec fn swept_from(
        &self,
        model: &IsingModel,
        before: &Self,
        before_model: &IsingModel,
    ) -> bool {
        &&& before.bond_selection == BondSelection::Random ==> exists|
            trace: Seq<(IsingModel, CreutzThermalDynamics)>,
            mid: (IsingModel, CreutzThermalDynamics),
        |
            {
                &&& #[trigger] bond_run(
                    trace,
                    (*before_model, *before),
                    mid,
                    num_bonds(before_model.l as int),
                )
                &&& self.finished_from(model, mid)
            }
        &&& before.bond_selection == BondSelection::Checkerboard ==> exists|
            trace: Seq<(IsingModel, CreutzThermalDynamics)>,
            mid: (IsingModel, CreutzThermalDynamics),
            visited: (IsingModel, CreutzThermalDynamics),
        |
            {
                &&& #[trigger] visit_path(
                    bond_step(),
                    trace,
                    (*before_model, *before),
                    mid,
                    checkerboard_bonds(before_model.l as int),
                )
                &&& #[trigger] reservoirs_coupled(
                    visited.0,
                    mid.0,
                    before.reservoir_type,
                    before.reservoir_left@,
                    before.reservoir_right@,
                    mid.1.cursor_left as int,
                    mid.1.cursor_right as int,
                    visited.1.cursor_left as int,
                    visited.1.cursor_right as int,
                )
                &&& visited.1 == CreutzThermalDynamics {
                    cursor_left: visited.1.cursor_left,
                    cursor_right: visited.1.cursor_right,
                    rng: visited.1.rng,
                    ..mid.1
                }
                &&& self.finished_from(model, visited)
            }
    }

    /// One sweep. With checkerboard selection every bond is visited once and
    /// then every boundary site is coupled to its reservoir; with random
    /// selection as many bonds as there are are drawn, one at a time.
    pub fn sweep(&mut self, model: &mut IsingModel)
        requires
            old(model).wf(),
            old(self).wf(old(model).l as int),
            old(self).within(old(model), i32::MAX - sweep_drift(old(model).l as int)),
        ensures
            final(self).swept_from(final(model), old(self), old(model)),
            final(model).wf(),
            final(self).wf(final(model).l as int),
            final(model).l == old(model).l,
            final(model).neighbors@ == old(model).neighbors@,
            final(self).same_setup(old(self)),
            final(self).near(final(model), old(self), old(model), sweep_drift(old(model).l as int)),
            old(self).demons_nonneg() ==> final(self).demons_nonneg(),
            old(model).is_periodic() && old(model).l >= 3 && old(model).energy_consistent()
                ==> final(model).energy_consistent(),
    {
        let l = model.l;
        let ghost li = l as int;
        let ghost s0 = *self;
        let ghost m0 = *model;
        let ghost periodic0 = model.is_periodic() && l >= 3 && model.energy_consistent();
        let ghost mut trace = seq![(*model, *self)];
        let ghost mut mid = (m0, s0);
        proof {
            lemma_side_fits(li);
            Self::lemma_near_refl(self, model, 0);
        }
        match self.bond_selection {
            BondSelection::Checkerboard => {
                proof {
                    Self::lemma_near_within(self, model, self, model, i32::MAX - sweep_drift(li), 40 * li);
                }
                self.process_bonds_checkerboard(model);
                let ghost s1 = *self;
                let ghost m1 = *model;
                proof {
                    Self::lemma_near_within(self, model, &s0, &m0, i32::MAX - sweep_drift(li), 80 * (li * li));
                }
                process_reservoirs(
                    model,
                    self.reservoir_type,
                    &self.reservoir_flip,
                    &self.reservoir_left,
                    &self.reservoir_right,
                    &mut self.cursor_left,
                    &mut self.cursor_right,
                    &mut self.rng,
                );
                proof {
                    assert(self.near(model, &s1, &m1, 40 * li));
                    Self::lemma_near_trans(self, model, &s1, &m1, &s0, &m0, 40 * li, 80 * (li * li));
                    trace = choose|t: Seq<(IsingModel, CreutzThermalDynamics)>| #[trigger] visit_path(
                        bond_step(),
                        t,
                        (m0, s0),
                        (m1, s1),
                        checkerboard_bonds(li),
                    );
                    mid = (m1, s1);
                    assert(*self == CreutzThermalDynamics {
                        cursor_left: self.cursor_left,
                        cursor_right: self.cursor_right,
                        rng: self.rng,
                        ..s1
                    });
                    if periodic0 {
                        assert(m1.is_periodic() && m1.l >= 2 && m1.energy_consistent());
                    }
                }
            },
            BondSelection::Random => {
                let n_total = self.n_total;
                let mut i: usize = 0;
                while i < n_total
                    invariant
                        bond_run(trace, (m0, s0), (*model, *self), i as int),
                        model.wf(),
                        self.wf(li),
                        model.l == l,
                        li == l,
                        side_fits(li),
                        model.neighbors@ == m0.neighbors@,
                        self.bond_selection == BondSelection::Random,
                        self.same_setup(&s0),
                        n_total == num_bonds(li),
                        s0.within(&m0, i32::MAX - sweep_drift(li)),
                        0 <= i <= n_total,
                        self.near(model, &s0, &m0, 20 * i),
                        s0.demons_nonneg() ==> self.demons_nonneg(),
                        periodic0 ==> model.is_periodic() && model.l >= 3 && model.energy_consistent(),
                    decreases n_total - i,
                {
                    let ghost s1 = *self;
                    let ghost m1 = *model;
                    proof {
                        assert(20 * (i + 1) <= sweep_drift(li)) by (nonlinear_arith)
                            requires
                                i < n_total,
                                n_total == li * (li - 1) + li * li + 2 * li,
                                li >= 1,
                        ;
                        Self::lemma_near_within(self, model, &s0, &m0, i32::MAX - sweep_drift(li), 20 * i);
                    }
                    let r = self.step(model);
                    proof {
                        Self::lemma_near_trans(self, model, &s1, &m1, &s0, &m0, 20, 20 * i);
                        lemma_bond_run_push(trace, (m0, s0), (m1, s1), (*model, *self), i as int, r@);
                        trace = trace.push((*model, *self));
                    }
                    i = i + 1;
                }
                proof {
                    assert(20 * i <= sweep_drift(li)) by (nonlinear_arith)
                        requires
                            i == n_total,
                            n_total == li * (li - 1) + li * li + 2 * li,
                            li >= 1,
                    ;
                    assert(self.near(model, &s0, &m0, sweep_drift(li)));
                }
            },
        }
        let ghost s2 = *self;
        let ghost m2 = *model;
        if self.replacement_mode == DemonReplacementMode::PerSweep {
            let mut i: usize = 0;
            proof {
                lemma_near_gives_near_or_pool(self.demons_h@, self.demons_h@, self.demon_pool@, 0);
                lemma_near_gives_near_or_pool(self.demons_v@, self.demons_v@, self.demon_pool@, 0);
                lemma_small_mod(self.demon_pool_cursor as nat, self.demon_pool@.len() as nat);
            }
            while i < self.demons_h.len()
                invariant
                    self.wf(li),
                    self.same_setup(&s2),
                    self.current_h == s2.current_h,
                    self.demons_v == s2.demons_v,
                    self.reservoir_left == s2.reservoir_left,
                    self.reservoir_right == s2.reservoir_right,
                    self.cursor_left == s2.cursor_left,
                    self.cursor_right == s2.cursor_right,
                    0 <= i <= self.demons_h@.len(),
                    self.demons_h@.len() == s2.demons_h@.len(),
                    self.demon_pool_cursor == (s2.demon_pool_cursor + i) % (s2.demon_pool@.len() as int),
                    forall|j: int| 0 <= j < i ==> #[trigger] self.demons_h@[j] == s2.demon_pool@[(
                    s2.demon_pool_cursor + j) % (s2.demon_pool@.len() as int)],
                    seqs_near_or_pool(self.demons_h@, s2.demons_h@, self.demon_pool@, 0),
                    s2.demons_nonneg() ==> self.demons_nonneg(),
                decreases self.demons_h@.len() - i,
            {
                let ghost c = self.demon_pool_cursor as int;
                let d = self.next_demon_from_pool();
                proof {
                    lemma_add_mod_noop_right(1, s2.demon_pool_cursor + i, s2.demon_pool@.len() as int);
                    lemma_near_or_pool_replace(self.demons_h@, self.demon_pool@, i as int, c, 0);
                    lemma_near_or_pool_trans(
                        self.demons_h@.update(i as int, d),
                        self.demons_h@,
                        s2.demons_h@,
                        self.demon_pool@,
                        0,
                        0,
                    );
                }
                self.demons_h.set(i, d);
                i = i + 1;
            }
            assert(self.demons_h@ =~= Seq::new(
                s2.demons_h@.len(),
                |j: int| s2.demon_pool@[(s2.demon_pool_cursor + j) % (s2.demon_pool@.len() as int)],
            ));
            let ghost nh = s2.demons_h@.len() as int;
            let ghost fresh_h = self.demons_h@;
            let mut i: usize = 0;
            while i < self.demons_v.len()
                invariant
                    self.wf(li),
                    self.same_setup(&s2),
                    self.current_h == s2.current_h,
                    self.demons_h@ == fresh_h,
                    self.reservoir_left == s2.reservoir_left,
                    self.reservoir_right == s2.reservoir_right,
                    self.cursor_left == s2.cursor_left,
                    self.cursor_right == s2.cursor_right,
                    0 <= i <= self.demons_v@.len(),
                    self.demons_v@.len() == s2.demons_v@.len(),
                    self.demon_pool_cursor == (s2.demon_pool_cursor + nh + i) % (
                    s2.demon_pool@.len() as int),
                    forall|j: int| 0 <= j < i ==> #[trigger] self.demons_v@[j] == s2.demon_pool@[(
                    s2.demon_pool_cursor + nh + j) % (s2.demon_pool@.len() as int)],
                    seqs_near_or_pool(self.demons_h@, s2.demons_h@, self.demon_pool@, 0),
                    seqs_near_or_pool(self.demons_v@, s2.demons_v@, self.demon_pool@, 0),
                    s2.demons_nonneg() ==> self.demons_nonneg(),
                decreases self.demons_v@.len() - i,
            {
                let ghost c = self.demon_pool_cursor as int;
                let d = self.next_demon_from_pool();
                proof {
                    lemma_add_mod_noop_right(1, s2.demon_pool_cursor + nh + i, s2.demon_pool@.len() as int);
                    lemma_near_or_pool_replace(self.demons_v@, self.demon_pool@, i as int, c, 0);
                    lemma_near_or_pool_trans(
                        self.demons_v@.update(i as int, d),
                        self.demons_v@,
                        s2.demons_v@,
                        self.demon_pool@,
                        0,
                        0,
                    );
                }
                self.demons_v.set(i, d);
                i = i + 1;
            }
            assert(self.demons_v@ =~= Seq::new(
                s2.demons_v@.len(),
                |j: int| s2.demon_pool@[(s2.demon_pool_cursor + nh + j) % (s2.demon_pool@.len() as int)],
            ));
            proof {
                Self::lemma_near_trans(self, model, &s2, &m2, &s0, &m0, 0, sweep_drift(li));
                assert(self.refilled_from(&s2));
            }
        }
        proof {
            if s0.bond_selection == BondSelection::Checkerboard {
                assert(visit_path(bond_step(), trace, (m0, s0), mid, checkerboard_bonds(li)));
                assert(reservoirs_coupled(
                    m2,
                    mid.0,
                    s0.reservoir_type,
                    s0.reservoir_left@,
                    s0.reservoir_right@,
                    mid.1.cursor_left as int,
                    mid.1.cursor_right as int,
                    s2.cursor_left as int,
                    s2.cursor_right as int,
                ));
                assert(self.finished_from(model, (m2, s2)));
            }
        }
    }

    /// Whether the stored energy, the demons and the currents leave room for
    /// one more sweep without leaving `i32`.
    pub fn sweep_fits(&self, model: &IsingModel) -> (ok: bool)
        requires
            side_fits(model.l as int),
        ensures
            ok == self.within(model, i32::MAX - sweep_drift(model.l as int)),
    {
        let b = i32::MAX as i64 - sweep_drift_of(model.l);
        let e = model.energy as i64;
        -b <= e && e <= b && entries_within(&self.demons_h, b) && entries_within(&self.demons_v, b)
            && entries_within(&self.current_h, b) && entries_within(&self.demon_pool, b)
    }
}

} // verus!
