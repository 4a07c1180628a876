//! The dynamics that move the spins of a model: single-spin flips at a
//! temperature (Metropolis), spin exchanges between neighbours (Kawasaki), and
//! microcanonical variants in which each site or bond carries a demon that
//! pays for, and is paid by, the energy changes.

pub mod common;
pub mod creutz;
pub mod creutz_kawasaki;
pub mod creutz_kawasaki_random;
pub mod creutz_thermal;
pub mod exchange;
pub mod kawasaki;
pub mod kawasaki_reservoir_struct;
pub mod metropolis;

use crate::dynamics::common::sweep_drift;
use crate::dynamics::creutz_kawasaki::CreutzKawasakiDynamics;
use crate::dynamics::creutz_thermal::CreutzThermalDynamics;
use crate::dynamics::kawasaki::KawasakiDynamics;
use crate::dynamics::metropolis::MetropolisDynamics;
use crate::ising_model::IsingModel;
use vstd::prelude::*;

verus! {

/// In which order the bonds of a sweep are visited.
#[derive(Clone, Copy, PartialEq, Eq, Structural)]
pub enum BondSelection {
    /// Every bond once, in two interleaved passes per direction.
    Checkerboard,
    /// As many bonds as there are, each drawn at random.
    Random,
}

/// How the boundary columns are coupled to the reservoirs on either side.
#[derive(Clone, Copy, PartialEq, Eq, Structural)]
pub enum ReservoirType {
    /// Each boundary spin is flipped by a coin biased by the reservoir's
    /// magnetisation.
    Annealed,
    /// Each boundary spin is set to the next spin of a fixed, shuffled
    /// reservoir sequence.
    Quenched,
}

/// When the demons of the thermal demon dynamics are redrawn from the pool.
#[derive(Clone, Copy, PartialEq, Eq, Structural)]
pub enum DemonReplacementMode {
    /// After every bond that is visited.
    PerStep,
    /// After every sweep, all of them.
    PerSweep,
}

/// The dynamics that a simulation runs.
pub enum Dynamics {
    Metropolis(MetropolisDynamics),
    Kawasaki(KawasakiDynamics),
    CreutzKawasaki(CreutzKawasakiDynamics),
    CreutzThermal(CreutzThermalDynamics),
}

impl Dynamics {
    /// The dynamics is set up for an `l x l` lattice.
    pub open spec fn wf(&self, l: int) -> bool {
        match self {
            Dynamics::Metropolis(d) => d.wf() && l >= 1,
            Dynamics::Kawasaki(d) => d.wf(l),
            Dynamics::CreutzKawasaki(d) => d.wf(l),
            Dynamics::CreutzThermal(d) => d.wf(l),
        }
    }

    /// One more sweep keeps every counter inside `i32`.
    pub open spec fn fits(&self, model: &IsingModel) -> bool {
        let b = i32::MAX - sweep_drift(model.l as int);
        match self {
            Dynamics::Metropolis(d) => model.energy_room(sweep_drift(model.l as int)),
            Dynamics::Kawasaki(d) => d.within(model, b),
            Dynamics::CreutzKawasaki(d) => d.within(model, b),
            Dynamics::CreutzThermal(d) => d.within(model, b),
        }
    }

    /// One sweep of the chosen dynamics, which stays the chosen one.
    pub fn sweep(&mut self, model: &mut IsingModel)
        requires
            old(model).wf(),
            old(self).wf(old(model).l as int),
            old(self).fits(old(model)),
        ensures
            final(model).wf(),
            final(self).wf(final(model).l as int),
            final(model).l == old(model).l,
            final(model).neighbors@ == old(model).neighbors@,
            match (*old(self), *final(self)) {
                (Dynamics::Metropolis(d0), Dynamics::Metropolis(d1)) => d1.swept_from(
                    final(model),
                    &d0,
                    old(model),
                ),
                (Dynamics::Kawasaki(d0), Dynamics::Kawasaki(d1)) => d1.swept_from(
                    final(model),
                    &d0,
                    old(model),
                ),
                (Dynamics::CreutzKawasaki(d0), Dynamics::CreutzKawasaki(d1)) => d1.swept_from(
                    final(model),
                    &d0,
                    old(model),
                ),
                (Dynamics::CreutzThermal(d0), Dynamics::CreutzThermal(d1)) => d1.swept_from(
                    final(model),
                    &d0,
                    old(model),
                ),
                _ => false,
            },
            old(model).is_periodic() && old(model).l >= 3 && old(model).energy_consistent()
                ==> final(model).energy_consistent(),
    {
        match self {
            Dynamics::Metropolis(d) => d.sweep(model),
            Dynamics::Kawasaki(d) => d.sweep(model),
            Dynamics::CreutzKawasaki(d) => d.sweep(model),
            Dynamics::CreutzThermal(d) => d.sweep(model),
        }
    }

    /// Whether one more sweep keeps every counter inside `i32`.
    pub fn sweep_fits(&self, model: &IsingModel) -> (ok: bool)
        requires
            model.wf(),
        ensures
            ok == self.fits(model),
    {
        match self {
            Dynamics::Metropolis(d) => d.sweep_fits(model),
            Dynamics::Kawasaki(d) => d.sweep_fits(model),
            Dynamics::CreutzKawasaki(d) => d.sweep_fits(model),
            Dynamics::CreutzThermal(d) => d.sweep_fits(model),
        }
    }
}

} // verus!
