//! Two-dimensional Ising model on an `l x l` square lattice, together with
//! the spin-flip and spin-exchange dynamics that drive it.

pub mod demon_histogram;
pub mod dynamics;
pub mod energy_laws;
pub mod ising_model;
pub mod lattice;
pub mod random;
