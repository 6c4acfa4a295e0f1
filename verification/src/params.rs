//! Validated scalar parameters: lattice dimensions, momentum quantum
//! numbers, and bond strides.  These wrappers reject out-of-domain values at
//! construction, before any scan begins.

use vstd::prelude::*;

verus! {

/// One lattice dimension (`nx` or `ny`): positive, and small enough that any
/// lattice using it fits in the 62 usable bits of a configuration word.
#[derive(Clone, Copy, Debug, PartialEq, Eq, Structural)]
pub struct Dim {
    pub raw: u32,
}

impl Dim {
    /// A dimension is valid when it is positive and at most 62.
    pub open spec fn wf(self) -> bool {
        1 <= self.raw <= 62
    }

    /// Accepts exactly the valid dimension sizes.
    pub fn new(raw: u32) -> (r: Option<Dim>)
        ensures
            r is Some <==> (1 <= raw <= 62),
            r is Some ==> r->0 == (Dim { raw }) && r->0.wf(),
    {
        if 1 <= raw && raw <= 62 {
            Some(Dim { raw })
        } else {
            None
        }
    }

    /// The underlying integer.
    pub fn raw_int(self) -> (r: u32)
        ensures
            r == self.raw,
    {
        self.raw
    }
}

/// A momentum quantum number along one axis, defined modulo that axis'
/// dimension: `kx` lives in `[0, nx)` and `ky` in `[0, ny)`.
#[derive(Clone, Copy, Debug, PartialEq, Eq, Structural)]
pub struct K {
    pub raw: u32,
    pub modulus: u32,
}

impl K {
    /// A momentum index is valid for the dimension it was made from.
    pub open spec fn wf_for(self, d: Dim) -> bool {
        self.modulus == d.raw && self.raw < self.modulus
    }

    /// Accepts exactly the momenta in `[0, d.raw)`.
    pub fn new(raw: u32, d: Dim) -> (r: Option<K>)
        ensures
            r is Some <==> raw < d.raw,
            r is Some ==> r->0 == (K { raw, modulus: d.raw }) && r->0.wf_for(d),
    {
        if raw < d.raw {
            Some(K { raw, modulus: d.raw })
        } else {
            None
        }
    }

    /// The underlying integer.
    pub fn raw_int(self) -> (r: u32)
        ensures
            r == self.raw,
    {
        self.raw
    }
}

} // verus!
