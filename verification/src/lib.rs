//! Symmetry-reduced basis construction for spin-1/2 models on a triangular
//! lattice wrapped on a torus.
//!
//! Spin configurations are fixed-width bitmasks (one bit per lattice site).
//! The library enumerates the translation orbits of such configurations,
//! collects them into momentum-resolved Bloch functions with exact
//! root-of-unity phase bookkeeping, and generates the site-pair lists needed
//! to assemble Hamiltonian matrix elements.

pub mod basis;
pub mod params;
pub mod bloch;
pub mod k;
pub mod lookup;
pub mod sites;
pub mod ks;

use vstd::prelude::*;

verus! {

/// A complex number held as a plain pair of components, used to carry
/// exact results toward a numerical host.
pub struct CComplex<T> {
    pub re: T,
    pub im: T,
}

} // verus!
