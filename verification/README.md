# ising

A simulator of the two-dimensional Ising model on an `l x l` square lattice,
written in Verus: the lattice, its energy bookkeeping and the dynamics that move
its spins are verified against their contracts; a small `eframe` window drives
them.

## Layout

- `src/lattice.rs`: the mathematical model of a lattice: spins, neighbour
  tables for periodic and shifted boundaries, the energy of a lattice and the
  change that flipping or exchanging spins makes to it.
- `src/energy_laws.rs`: on a periodic lattice, flipping a site changes the
  energy by its flip delta, exchanging the opposite spins of a bond changes it
  by the exchange delta, and flipping twice changes nothing.
- `src/ising_model.rs`: `IsingModel`, which keeps its stored energy and total
  spin in step with the spins.
- `src/dynamics/`: single-spin flips at a temperature (`metropolis`), spin
  exchanges at a temperature with annealed or quenched reservoirs
  (`kawasaki`, `kawasaki_reservoir_struct`), demon dynamics (`creutz`,
  `creutz_kawasaki`, `creutz_kawasaki_random`, `creutz_thermal`), the bond
  table and reservoirs they share (`common`), and the demon exchange
  (`exchange`). Each sweep states the run of site or bond visits that leads
  from the state before to the state after it, and each bond or site visit
  is a public function of its own, given the drawn bond or site (and, where
  the caller tosses it, the coin's outcome); the demon dynamics state that
  the energy of the lattice and the demons together is conserved.
- `src/demon_histogram.rs`: per-bond histograms of demon energies.
- `src/random.rs`: the calls into `rand`, with what is assumed of them.
- `app/`: the window, the seeds of the generators (drawn from the system's
  entropy), and the floating-point parts: Boltzmann factors turned into
  coins, reservoir magnetisations into spin counts, thermal demon pools, and
  inverse temperatures estimated from the histograms.
