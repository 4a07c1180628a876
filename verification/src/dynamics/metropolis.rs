//! Metropolis single-spin-flip dynamics: a randomly drawn site flips with
//! the Metropolis probability of its flip delta.

use crate::dynamics::common::{sweep_drift, sweep_drift_of};
use crate::ising_model::IsingModel;
use crate::lattice::{flip_delta, lemma_side_fits, side_fits};
use crate::random::{seeded_small_rng, random_below, toss};
use rand::distr::Bernoulli;
use rand::rngs::SmallRng;
use vstd::prelude::*;

verus! {

/// Single-spin-flip dynamics at an inverse temperature.
pub struct MetropolisDynamics {
    /// The five flip coins, for flip deltas -8, -4, 0, 4, 8.
    pub flip_coins: Vec<Bernoulli>,
    pub rng: SmallRng,
}

/// The coin that accepts a flip with energy change `delta`: coin
/// `delta / 4 + 2` of the five, for -8, -4, 0, 4, 8.
pub fn flip_coin_index(delta: i32) -> (c: usize)
    requires
        -8 <= delta <= 8,
        delta % 4 == 0,
    ensures
        c == delta / 4 + 2,
        c < 5,
{
    (delta / 4 + 2) as usize
}

/// A visit of site `idx` of `before`: either nothing changed, or the site
/// flipped and the stored energy moved by its flip delta.
pub open spec fn site_move(after: IsingModel, before: IsingModel, idx: int) -> bool {
    &&& 0 <= idx < before.l * before.l
    &&& after.same_as(&before) || after.flipped_from(&before, idx)
}

/// Step `i` of `trace` is the visit of some site.
pub open spec fn site_link(trace: Seq<IsingModel>, i: int) -> bool {
    exists|idx: int| #[trigger] site_move(trace[i + 1], trace[i], idx)
}

/// `trace` leads from `before` to `after` by `n` site visits.
pub open spec fn site_run(trace: Seq<IsingModel>, before: IsingModel, after: IsingModel, n: int) -> bool {
    &&& trace.len() == n + 1
    &&& trace[0] == before
    &&& trace[n] == after
    &&& forall|i: int| 0 <= i < n ==> #[trigger] site_link(trace, i)
}

/// Extending a run by one more site visit.
proof fn lemma_site_run_push(trace: Seq<IsingModel>, before: IsingModel, mid: IsingModel, after: IsingModel, n: int, idx: int)
    requires
        n >= 0,
        site_run(trace, before, mid, n),
        site_move(after, mid, idx),
    ensures
        site_run(trace.push(after), before, after, n + 1),
{
    let t = trace.push(after);
    assert forall|i: int| 0 <= i < n + 1 implies #[trigger] site_link(t, i) by {
        if i < n {
            assert(site_link(trace, i));
            let j = choose|j: int| #[trigger] site_move(trace[i + 1], trace[i], j);
            assert(t[i + 1] == trace[i + 1]);
            assert(site_move(t[i + 1], t[i], j));
        } else {
            assert(site_move(t[i + 1], t[i], idx));
        }
    }
}

impl MetropolisDynamics {
    /// There is a coin for each of the five flip deltas.
    pub open spec fn wf(&self) -> bool {
        self.flip_coins@.len() == 5
    }

    /// Flip dynamics whose five `flip_coins` accept flips (coin
    /// `delta / 4 + 2` for a flip delta `delta`).
    /// The random numbers are drawn from a generator seeded with `seed`.
    pub fn new(flip_coins: Vec<Bernoulli>, seed: u64) -> (d: Self)
        requires
            flip_coins@.len() == 5,
        ensures
            d.wf(),
            d.flip_coins@ == flip_coins@,
    {
        let rng = seeded_small_rng(seed);
        Self { flip_coins, rng }
    }

    /// Changes the temperature, given by the five flip coins that it sets
    /// (one for each flip delta -8, -4, 0, 4, 8).
    pub fn set_temperature(&mut self, flip_coins: Vec<Bernoulli>)
        requires
            flip_coins@.len() == 5,
        ensures
            final(self).wf(),
            final(self).flip_coins@ == flip_coins@,
    {
        self.flip_coins = flip_coins;
    }

    /// The visit of site `idx`, its flip coin having come up `heads`: heads
    /// flips the site, adding its flip delta to the stored energy; tails
    /// changes nothing.
    pub fn visit_site(model: &mut IsingModel, idx: usize, heads: bool)
        requires
            old(model).wf(),
            idx < old(model).l * old(model).l,
            old(model).energy_room(8),
        ensures
            heads ==> final(model).flipped_from(old(model), idx as int),
            !heads ==> final(model).same_as(old(model)),
            final(model).wf(),
            old(model).is_periodic() && old(model).l >= 2 && old(model).energy_consistent()
                ==> final(model).energy_consistent(),
    {
        if heads {
            let energy_delta = model.flip_energy_delta(idx);
            model.flip(idx, energy_delta);
        }
    }

    /// Visits site `idx` with the flip coin of its own flip delta: coin
    /// `flip_delta / 4 + 2` is tossed and the site flips exactly when it
    /// comes up heads. Returns the coin tossed and how it came up.
    pub fn visit_drawn_site(&mut self, model: &mut IsingModel, idx: usize) -> (tossed: (usize, bool))
        requires
            old(model).wf(),
            old(self).wf(),
            idx < old(model).l * old(model).l,
            old(model).energy_room(8),
        ensures
            tossed.0 == flip_delta(old(model).lattice@, old(model).neighbors@, idx as int) / 4 + 2,
            tossed.1 ==> final(model).flipped_from(old(model), idx as int),
            !tossed.1 ==> final(model).same_as(old(model)),
            final(model).wf(),
            final(self).wf(),
            final(self).flip_coins@ == old(self).flip_coins@,
            old(model).is_periodic() && old(model).l >= 2 && old(model).energy_consistent()
                ==> final(model).energy_consistent(),
    {
        let coin = flip_coin_index(model.flip_energy_delta(idx));
        let heads = toss(&mut self.rng, &self.flip_coins[coin]);
        Self::visit_site(model, idx, heads);
        (coin, heads)
    }

    /// One randomly drawn site, visited with the flip coin of its flip delta
    /// (see `visit_drawn_site`).
    fn step(&mut self, model: &mut IsingModel) -> (idx: Ghost<int>)
        requires
            old(model).wf(),
            old(self).wf(),
            old(model).l >= 1,
            old(model).energy_room(8),
        ensures
            site_move(*final(model), *old(model), idx@),
            final(model).wf(),
            final(self).wf(),
            final(self).flip_coins@ == old(self).flip_coins@,
            final(model).l == old(model).l,
            final(model).neighbors@ == old(model).neighbors@,
            -8 <= final(model).energy - old(model).energy <= 8,
            old(model).is_periodic() && old(model).l >= 2 && old(model).energy_consistent()
                ==> final(model).energy_consistent(),
    {
        proof {
            lemma_side_fits(model.l as int);
        }
        let idx = random_below(&mut self.rng, model.l * model.l);
        self.visit_drawn_site(model, idx);
        Ghost(idx as int)
    }

    /// `model` is `before_model` after one sweep: a run of as many site
    /// visits as there are sites.
    pub open spec fn swept_from(
        &self,
        model: &IsingModel,
        before: &Self,
        before_model: &IsingModel,
    ) -> bool {
        exists|trace: Seq<IsingModel>|
            #[trigger] site_run(trace, *before_model, *model, before_model.l * before_model.l)
    }

    /// One sweep: as many randomly drawn sites as there are, each flipping
    /// or not as its flip coin decides.
    pub fn sweep(&mut self, model: &mut IsingModel)
        requires
            old(model).wf(),
            old(self).wf(),
            old(model).l >= 1,
            old(model).energy_room(sweep_drift(old(model).l as int)),
        ensures
            final(self).swept_from(final(model), old(self), old(model)),
            final(model).wf(),
            final(self).wf(),
            final(self).flip_coins@ == old(self).flip_coins@,
            final(model).l == old(model).l,
            final(model).neighbors@ == old(model).neighbors@,
            -sweep_drift(old(model).l as int) <= final(model).energy - old(model).energy
                <= sweep_drift(old(model).l as int),
            old(model).is_periodic() && old(model).l >= 2 && old(model).energy_consistent()
                ==> final(model).energy_consistent(),
    {
        let ghost li = model.l as int;
        let ghost e0 = model.energy as int;
        let ghost nb0 = model.neighbors@;
        let ghost coins0 = self.flip_coins@;
        let ghost m0 = *model;
        let ghost periodic0 = model.is_periodic() && model.l >= 2 && model.energy_consistent();
        proof {
            lemma_side_fits(li);
        }
        let n = model.l * model.l;
        let ghost trace = seq![*model];
        let mut i: usize = 0;
        while i < n
            invariant
                site_run(trace, m0, *model, i as int),
                model.wf(),
                self.wf(),
                self.flip_coins@ == coins0,
                model.l == li,
                li >= 1,
                side_fits(li),
                n == li * li,
                model.neighbors@ == nb0,
                i32::MIN + sweep_drift(li) <= e0 <= i32::MAX - sweep_drift(li),
                0 <= i <= n,
                -8 * i <= model.energy - e0 <= 8 * i,
                periodic0 ==> model.is_periodic() && model.l >= 2 && model.energy_consistent(),
            decreases n - i,
        {
            let ghost mid = *model;
            let idx = self.step(model);
            proof {
                lemma_site_run_push(trace, m0, mid, *model, i as int, idx@);
                trace = trace.push(*model);
            }
            i = i + 1;
        }
        assert(site_run(trace, m0, *model, n as int));
    }

    /// Whether the stored energy leaves room for one more sweep without
    /// leaving `i32`.
    pub fn sweep_fits(&self, model: &IsingModel) -> (ok: bool)
        requires
            side_fits(model.l as int),
        ensures
            ok == model.energy_room(sweep_drift(model.l as int)),
    {
        let d = sweep_drift_of(model.l);
        let e = model.energy as i64;
        i32::MIN as i64 + d <= e && e <= i32::MAX as i64 - d
    }
}

} // verus!
