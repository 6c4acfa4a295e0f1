//! Index/representative lookup over a sorted `BlochFuncSet`: the bridge
//! matrix assembly uses to turn a configuration into a basis index and back,
//! and to resolve an operator's image configuration to its owning Bloch
//! function together with the relative phase.

use vstd::prelude::*;
use crate::basis::BinaryBasis;
use crate::bloch::{BlochFunc, BlochFuncSet, sorted_by_lead, distinct_leads};

verus! {

/// The dense index -> representative table of a Bloch-function set: entry
/// `i` is the representative of the `i`-th basis vector in sorted order.
/// Together with [`dec_to_ind`] this realizes the bidirectional
/// index <-> representative conversion.
pub fn gen_ind_dec_conv_dicts(bfuncs: &BlochFuncSet) -> (r: Vec<BinaryBasis>)
    ensures
        r@.len() == bfuncs.funcs@.len(),
        forall|i: int| 0 <= i < r@.len() ==> r@[i] == (#[trigger] bfuncs.funcs@[i]).lead,
{
    let mut r: Vec<BinaryBasis> = Vec::new();
    let mut i: usize = 0;
    while i < bfuncs.len()
        invariant
            i <= bfuncs.funcs@.len(),
            r@.len() == i,
            forall|q: int| 0 <= q < i ==> r@[q] == (#[trigger] bfuncs.funcs@[q]).lead,
        decreases bfuncs.funcs@.len() - i,
    {
        r.push(bfuncs.get(i).lead);
        i = i + 1;
    }
    r
}

/// Looks a representative up in the sorted index table, returning its basis
/// index: the inverse direction of [`gen_ind_dec_conv_dicts`].  Returns
/// `Some` exactly for registered representatives.
pub fn dec_to_ind(leads: &Vec<BinaryBasis>, dec: BinaryBasis) -> (r: Option<u32>)
    requires
        leads@.len() <= u32::MAX,
        forall|i: int, j: int|
            0 <= i < j < leads@.len() ==> (#[trigger] leads@[i]).0 < (#[trigger] leads@[j]).0,
    ensures
        r is Some ==> r->0 < leads@.len() && leads@[r->0 as int] == dec,
        r is None ==> forall|i: int| 0 <= i < leads@.len() ==> (#[trigger] leads@[i]) != dec,
{
    let mut lo: usize = 0;
    let mut hi: usize = leads.len();
    while lo < hi
        invariant
            lo <= hi <= leads@.len(),
            leads@.len() <= u32::MAX,
            forall|i: int, j: int|
                0 <= i < j < leads@.len() ==> (#[trigger] leads@[i]).0 < (#[trigger] leads@[j]).0,
            forall|i: int| 0 <= i < lo ==> (#[trigger] leads@[i]).0 < dec.0,
            forall|i: int| hi <= i < leads@.len() ==> (#[trigger] leads@[i]).0 > dec.0,
        decreases hi - lo,
    {
        let mid = lo + (hi - lo) / 2;
        if leads[mid].0 < dec.0 {
            lo = mid + 1;
        } else if leads[mid].0 > dec.0 {
            hi = mid;
        } else {
            return Some(mid as u32);
        }
    }
    None
}

/// Two distinct positions of a sorted, duplicate-free Bloch-function set
/// never share a representative: the index <-> representative conversion is
/// a bijection over the set's entries.
pub proof fn lemma_ind_dec_round_trip(s: &BlochFuncSet, i: int, j: int)
    requires
        sorted_by_lead(s.funcs@),
        distinct_leads(s.funcs@),
        0 <= i < s.funcs@.len(),
        0 <= j < s.funcs@.len(),
        s.funcs@[i].lead == s.funcs@[j].lead,
    ensures
        i == j,
{
    if i < j {
        assert(s.funcs@[i].lead.0 != s.funcs@[j].lead.0);
    }
    if j < i {
        assert(s.funcs@[j].lead.0 != s.funcs@[i].lead.0);
    }
}

/// Some entry of some Bloch function of `fs` holds configuration `dec`.
pub open spec fn member_of(fs: Seq<BlochFunc>, dec: BinaryBasis) -> bool {
    exists|i: int, a: int|
        0 <= i < fs.len() && 0 <= a < (#[trigger] fs[i]).decs@.len() && (
        #[trigger] fs[i].decs@[a]).dec == dec
}

/// Resolves an arbitrary configuration to the Bloch function that contains
/// it as an orbit member, returning the function's position in the set and
/// the conjugated, unit-normalized phase exponent relating `dec` to that
/// function's representative: the member's coefficient is
/// `mult * exp(2*pi*i*phase/n)`, so the conjugated unit phase is
/// `exp(2*pi*i*((n - phase) % n)/n)`.  Returns `None` exactly when no
/// function of the set contains `dec`: callers treat that as a legitimate
/// don't-care case.
pub fn find_leading_state(dec: BinaryBasis, bfuncs: &BlochFuncSet) -> (r: Option<(usize, u64)>)
    requires
        1 <= bfuncs.nx,
        1 <= bfuncs.ny,
        bfuncs.nx * bfuncs.ny <= 62,
        forall|i: int, a: int|
            0 <= i < bfuncs.funcs@.len() && 0 <= a < (#[trigger] bfuncs.funcs@[i]).decs@.len()
                ==> (#[trigger] bfuncs.funcs@[i].decs@[a]).phase < bfuncs.nx * bfuncs.ny,
    ensures
        r is Some <==> member_of(bfuncs.funcs@, dec),
        r is Some ==> (r->0).0 < bfuncs.funcs@.len() && exists|a: int|
            0 <= a < bfuncs.funcs@[(r->0).0 as int].decs@.len() && (
            #[trigger] bfuncs.funcs@[(r->0).0 as int].decs@[a]).dec == dec && (r->0).1 == ((
            bfuncs.nx * bfuncs.ny) as int - bfuncs.funcs@[(r->0).0 as int].decs@[a].phase as int)
            % ((bfuncs.nx * bfuncs.ny) as int),
{
    let n64 = (bfuncs.nx * bfuncs.ny) as u64;
    proof {
        assert(1 <= bfuncs.nx * bfuncs.ny) by (nonlinear_arith)
            requires
                1 <= bfuncs.nx && 1 <= bfuncs.ny,
        ;
    }
    let mut i: usize = 0;
    while i < bfuncs.len()
        invariant
            n64 == bfuncs.nx * bfuncs.ny,
            1 <= n64 <= 62,
            i <= bfuncs.funcs@.len(),
            forall|i2: int, a: int|
                0 <= i2 < bfuncs.funcs@.len() && 0 <= a < (
                #[trigger] bfuncs.funcs@[i2]).decs@.len() ==> (
                #[trigger] bfuncs.funcs@[i2].decs@[a]).phase < bfuncs.nx * bfuncs.ny,
            forall|i2: int, a: int|
                0 <= i2 < i && 0 <= a < (#[trigger] bfuncs.funcs@[i2]).decs@.len() ==> (
                #[trigger] bfuncs.funcs@[i2].decs@[a]).dec != dec,
        decreases bfuncs.funcs@.len() - i,
    {
        let f = bfuncs.get(i);
        let mut a: usize = 0;
        while a < f.decs.len()
            invariant
                n64 == bfuncs.nx * bfuncs.ny,
                1 <= n64 <= 62,
                i < bfuncs.funcs@.len(),
                f == bfuncs.funcs@[i as int],
                forall|b: int|
                    0 <= b < f.decs@.len() ==> (#[trigger] f.decs@[b]).phase < n64,
                a <= f.decs@.len(),
                forall|b: int| 0 <= b < a ==> (#[trigger] f.decs@[b]).dec != dec,
            decreases f.decs@.len() - a,
        {
            if f.decs[a].dec.0 == dec.0 {
                let phase = (n64 - f.decs[a].phase) % n64;
                proof {
                    assert(f.decs@[a as int].dec == dec);
                    assert(member_of(bfuncs.funcs@, dec));
                    assert(phase as int == ((bfuncs.nx * bfuncs.ny) as int - bfuncs.funcs@[
                        i as int].decs@[a as int].phase as int) % ((bfuncs.nx * bfuncs.ny) as int));
                }
                return Some((i, phase));
            }
            a = a + 1;
        }
        i = i + 1;
    }
    proof {
        assert(!member_of(bfuncs.funcs@, dec));
    }
    None
}

/// The relative normalization applied when an operator maps the orbit of
/// `orig_state` onto the orbit of `cntd_state`: the exact square of the norm
/// ratio `cntd.norm / orig.norm`, as a numerator/denominator pair of the two
/// squared norms.
pub fn coeff(orig_state: &BlochFunc, cntd_state: &BlochFunc) -> (r: (u64, u64))
    ensures
        r.0 == cntd_state.norm_sqr,
        r.1 == orig_state.norm_sqr,
{
    (cntd_state.norm_sqr, orig_state.norm_sqr)
}

} // verus!
