//! Bloch basis construction over the full configuration space: only the
//! crystal momentum is conserved, so all `2^(nx*ny)` configurations are
//! scanned in increasing order and grouped into translation orbits.

use vstd::prelude::*;
use vstd::arithmetic::power2::pow2;
use crate::basis::{BinaryBasis, valid_dims, in_range, pow2u64};
use crate::bloch::{
    BlochFunc,
    BlochFuncSet,
    bloch_wf,
    walk_contains,
    walk_step,
    survives,
    sorted_by_lead,
    distinct_leads,
    build_bloch_func,
};
use crate::params::{Dim, K};

verus! {

/// Some emitted Bloch function's orbit walk reaches configuration `m`.
pub open spec fn emitted_covers(fs: Seq<BlochFunc>, nx: nat, ny: nat, m: nat) -> bool {
    exists|i: int|
        0 <= i < fs.len() && walk_contains((#[trigger] fs[i]).lead.0 as nat, nx, ny, m)
}

/// Some already-processed representative's orbit walk reaches `m`.
spec fn processed_covers(ps: Seq<nat>, nx: nat, ny: nat, m: nat) -> bool {
    exists|t: int| 0 <= t < ps.len() && walk_contains(#[trigger] ps[t], nx, ny, m)
}

/// Configuration `m` is registered as a representative.
pub open spec fn has_lead(fs: Seq<BlochFunc>, m: nat) -> bool {
    exists|i: int| 0 <= i < fs.len() && (#[trigger] fs[i]).lead.0 == m
}

/// No configuration smaller than `m` reaches `m` by translation: `m` is the
/// first configuration of its orbit in scan order.
pub open spec fn first_of_orbit(m: nat, nx: nat, ny: nat) -> bool {
    forall|l: nat| l < m ==> !walk_contains(l, nx, ny, m)
}

/// The first configuration of an orbit in scan order is its numeric
/// minimum: every walk step from it lands on a configuration at least as
/// large.
pub proof fn lemma_first_of_orbit_is_min(m: nat, nx: nat, ny: nat, s: nat)
    requires
        1 <= nx,
        1 <= ny,
        nx * ny <= 62,
        m < pow2((nx * ny) as nat),
        first_of_orbit(m, nx, ny),
        s < nx * ny,
    ensures
        walk_step(m, nx, ny, s) >= m,
{
    let w = walk_step(m, nx, ny, s);
    if w < m {
        assert(walk_contains(m, nx, ny, w));
        crate::bloch::lemma_walk_step_bound(m, nx, ny, s);
        crate::bloch::lemma_walk_contains_sym(m, w, nx, ny);
        assert(!walk_contains(w, nx, ny, m));
        assert(false);
    }
}

/// Two first-of-orbit representatives whose orbits share a configuration
/// are the same: the emitted orbits are pairwise disjoint, so together with
/// the coverage clauses every configuration belongs to exactly one emitted
/// Bloch function or to a cancelled orbit.
pub proof fn lemma_distinct_orbits_disjoint(l1: nat, l2: nat, m: nat, nx: nat, ny: nat)
    requires
        1 <= nx,
        1 <= ny,
        nx * ny <= 62,
        l1 < pow2((nx * ny) as nat),
        l2 < pow2((nx * ny) as nat),
        first_of_orbit(l1, nx, ny),
        first_of_orbit(l2, nx, ny),
        walk_contains(l1, nx, ny, m),
        walk_contains(l2, nx, ny, m),
    ensures
        l1 == l2,
{
    crate::bloch::lemma_walk_contains_sym(l2, m, nx, ny);
    crate::bloch::lemma_walk_contains_trans(l1, m, l2, nx, ny);
    crate::bloch::lemma_walk_contains_sym(l1, l2, nx, ny);
    if l1 < l2 {
        assert(!walk_contains(l1, nx, ny, l2));
        assert(false);
    }
    if l2 < l1 {
        assert(!walk_contains(l2, nx, ny, l1));
        assert(false);
    }
}

/// Builds the Bloch-function basis of the full `2^(nx*ny)` configuration
/// space at momentum `(kx, ky)`.
///
/// Every configuration is scanned in increasing order; each yet-unvisited
/// one starts a translation orbit whose members are all marked visited, so
/// each orbit is collected exactly once, with the first-encountered (here:
/// numerically smallest visited) configuration as its representative.
/// Orbits whose phases cancel are discarded; every configuration is
/// nevertheless reached by the walk of some processed representative, which
/// the last clause below records.
#[verifier::rlimit(100)]
pub fn bloch_states(nx: Dim, ny: Dim, kx: K, ky: K) -> (r: BlochFuncSet)
    requires
        nx.wf(),
        ny.wf(),
        valid_dims(nx.raw, ny.raw),
        kx.wf_for(nx),
        ky.wf_for(ny),
        pow2((nx.raw * ny.raw) as nat) <= usize::MAX,
    ensures
        r.nx == nx.raw && r.ny == ny.raw,
        forall|i: int|
            0 <= i < r.funcs@.len() ==> bloch_wf(
                &(#[trigger] r.funcs@[i]),
                nx.raw as nat,
                ny.raw as nat,
                kx.raw as nat,
                ky.raw as nat,
            ),
        sorted_by_lead(r.funcs@),
        distinct_leads(r.funcs@),
        forall|m: nat|
            m < pow2((nx.raw * ny.raw) as nat) ==> emitted_covers(
                r.funcs@,
                nx.raw as nat,
                ny.raw as nat,
                m,
            ) || (exists|l: nat|
                l < pow2((nx.raw * ny.raw) as nat) && !survives(
                    l,
                    nx.raw as nat,
                    ny.raw as nat,
                    kx.raw as nat,
                    ky.raw as nat,
                ) && walk_contains(l, nx.raw as nat, ny.raw as nat, m)),
        forall|m: nat|
            m < pow2((nx.raw * ny.raw) as nat) && #[trigger] survives(
                m,
                nx.raw as nat,
                ny.raw as nat,
                kx.raw as nat,
                ky.raw as nat,
            ) && first_of_orbit(m, nx.raw as nat, ny.raw as nat) ==> has_lead(r.funcs@, m),
        forall|i: int|
            0 <= i < r.funcs@.len() ==> first_of_orbit(
                (#[trigger] r.funcs@[i]).lead.0 as nat,
                nx.raw as nat,
                ny.raw as nat,
            ),
        forall|i: int, s: nat|
            0 <= i < r.funcs@.len() && s < nx.raw * ny.raw ==> #[trigger] walk_step(
                r.funcs@[i].lead.0 as nat,
                nx.raw as nat,
                ny.raw as nat,
                s,
            ) >= r.funcs@[i].lead.0,
{
    let nxr = nx.raw;
    let nyr = ny.raw;
    let kxr = kx.raw;
    let kyr = ky.raw;
    let ghost nxn = nxr as nat;
    let ghost nyn = nyr as nat;
    let ghost kxn = kxr as nat;
    let ghost kyn = kyr as nat;
    let ghost nn = nxn * nyn;
    let n = nxr * nyr;
    let size64 = pow2u64(n);
    let size = size64 as usize;
    proof {
        assert(size == pow2(nn));
    }
    let mut sieve: Vec<bool> = Vec::new();
    while sieve.len() < size
        invariant
            sieve@.len() <= size,
            forall|m: int| 0 <= m < sieve@.len() ==> #[trigger] sieve@[m],
        decreases size - sieve@.len(),
    {
        sieve.push(true);
    }
    let mut bfuncs: Vec<BlochFunc> = Vec::new();
    let ghost mut processed: Seq<nat> = Seq::empty();
    let mut dec: usize = 0;
    while dec < size
        invariant
            valid_dims(nxr, nyr),
            kxr < nxr,
            kyr < nyr,
            nxn == nxr as nat && nyn == nyr as nat && kxn == kxr as nat && kyn == kyr as nat,
            nn == nxn * nyn,
            size == pow2(nn),
            size <= usize::MAX,
            sieve@.len() == size,
            dec <= size,
            forall|i: int|
                0 <= i < bfuncs@.len() ==> bloch_wf(&(#[trigger] bfuncs@[i]), nxn, nyn, kxn, kyn)
                    && bfuncs@[i].lead.0 < dec,
            forall|i: int, j: int|
                0 <= i < j < bfuncs@.len() ==> (#[trigger] bfuncs@[i]).lead.0 < (
                #[trigger] bfuncs@[j]).lead.0,
            forall|t: int|
                0 <= t < processed.len() ==> #[trigger] processed[t] < dec && (survives(
                    processed[t],
                    nxn,
                    nyn,
                    kxn,
                    kyn,
                ) ==> exists|i: int|
                    0 <= i < bfuncs@.len() && (#[trigger] bfuncs@[i]).lead.0 == processed[t]),
            forall|m: int|
                0 <= m < size ==> (!(#[trigger] sieve@[m]) <==> processed_covers(
                    processed,
                    nxn,
                    nyn,
                    m as nat,
                )),
            forall|m: int| 0 <= m < dec ==> !(#[trigger] sieve@[m]),
            forall|m: nat|
                m < dec && #[trigger] survives(m, nxn, nyn, kxn, kyn) && first_of_orbit(
                    m,
                    nxn,
                    nyn,
                ) ==> has_lead(bfuncs@, m),
            forall|i: int|
                0 <= i < bfuncs@.len() ==> first_of_orbit(
                    (#[trigger] bfuncs@[i]).lead.0 as nat,
                    nxn,
                    nyn,
                ),
        decreases size - dec,
    {
        if sieve[dec] {
            let bb = BinaryBasis(dec as u64);
            proof {
                assert(in_range(bb.0 as nat, (nxr * nyr) as nat));
                // an unvisited configuration is the first of its orbit: any
                // smaller configuration reaching it was itself reached by a
                // processed representative, whose walk then reaches here too
                assert forall|l: nat| l < dec as nat implies !walk_contains(l, nxn, nyn, dec as nat)
                by {
                    if walk_contains(l, nxn, nyn, dec as nat) {
                        assert(!sieve@[l as int]);
                        let t = choose|t: int|
                            0 <= t < processed.len() && walk_contains(
                                #[trigger] processed[t],
                                nxn,
                                nyn,
                                l,
                            );
                        crate::bloch::lemma_walk_contains_trans(
                            processed[t],
                            l,
                            dec as nat,
                            nxn,
                            nyn,
                        );
                        assert(processed_covers(processed, nxn, nyn, dec as nat));
                        assert(!sieve@[dec as int]);
                        assert(false);
                    }
                }
                assert(first_of_orbit(dec as nat, nxn, nyn));
            }
            let (c, of) = build_bloch_func(bb, nxr, nyr, kxr, kyr);
            let ghost prev = processed;
            proof {
                assert forall|m: int| 0 <= m < dec implies #[trigger] processed_covers(
                    prev,
                    nxn,
                    nyn,
                    m as nat,
                ) by {
                    assert(!sieve@[m]);
                }
            }
            let mut s: usize = 0;
            while s < c.len()
                invariant
                    sieve@.len() == size,
                    size == pow2(nn),
                    s <= c@.len(),
                    c@.len() == nn,
                    forall|q: int|
                        0 <= q < c@.len() ==> (#[trigger] c@[q]).0.0 < size,
                    forall|m: int|
                        0 <= m < size ==> (!(#[trigger] sieve@[m]) <==> (processed_covers(
                            processed,
                            nxn,
                            nyn,
                            m as nat,
                        ) || exists|q: int| 0 <= q < s && (#[trigger] c@[q]).0.0 == m)),
                decreases c@.len() - s,
            {
                let idx = c[s].0.0 as usize;
                sieve[idx] = false;
                s = s + 1;
            }
            proof {
                processed = processed.push(dec as nat);
                assert(processed.len() == prev.len() + 1);
                assert forall|m: int|
                    0 <= m < size implies (!(#[trigger] sieve@[m]) <==> processed_covers(
                    processed,
                    nxn,
                    nyn,
                    m as nat,
                )) by {
                    if !sieve@[m] {
                        if processed_covers(prev, nxn, nyn, m as nat) {
                            let t = choose|t: int|
                                0 <= t < prev.len() && walk_contains(
                                    #[trigger] prev[t],
                                    nxn,
                                    nyn,
                                    m as nat,
                                );
                            assert(processed[t] == prev[t]);
                            assert(processed_covers(processed, nxn, nyn, m as nat));
                        } else {
                            let q = choose|q: int|
                                0 <= q < s && (#[trigger] c@[q]).0.0 == m;
                            assert(c@[q].0.0 == walk_step(dec as nat, nxn, nyn, q as nat));
                            assert(walk_contains(dec as nat, nxn, nyn, m as nat));
                            assert(processed[processed.len() - 1] == dec as nat);
                            assert(processed_covers(processed, nxn, nyn, m as nat));
                        }
                    } else {
                        if processed_covers(processed, nxn, nyn, m as nat) {
                            let t = choose|t: int|
                                0 <= t < processed.len() && walk_contains(
                                    #[trigger] processed[t],
                                    nxn,
                                    nyn,
                                    m as nat,
                                );
                            if t < processed.len() - 1 {
                                assert(prev[t] == processed[t]);
                                assert(processed_covers(prev, nxn, nyn, m as nat));
                                assert(false);
                            } else {
                                let st = choose|st: nat|
                                    st < nxn * nyn && walk_step(dec as nat, nxn, nyn, st)
                                        == m as nat;
                                assert(c@[st as int].0.0 == m);
                                assert(false);
                            }
                        }
                    }
                }
                assert(!sieve@[dec as int]) by {
                    assert(c@[0].0.0 == walk_step(dec as nat, nxn, nyn, 0));
                    assert(c@[0].0.0 == dec as u64);
                }
                assert forall|m: int| 0 <= m < dec + 1 implies !(#[trigger] sieve@[m]) by {
                    if m < dec {
                        assert(processed_covers(prev, nxn, nyn, m as nat));
                        let t = choose|t: int|
                            0 <= t < prev.len() && walk_contains(
                                #[trigger] prev[t],
                                nxn,
                                nyn,
                                m as nat,
                            );
                        assert(processed[t] == prev[t]);
                        assert(processed_covers(processed, nxn, nyn, m as nat));
                    }
                }
            }
            match of {
                Some(f) => {
                    proof {
                        assert(f.lead.0 == dec as u64);
                        assert forall|t: int|
                            0 <= t < processed.len() && survives(
                                #[trigger] processed[t],
                                nxn,
                                nyn,
                                kxn,
                                kyn,
                            ) implies exists|i: int|
                            0 <= i < bfuncs@.len() + 1 && (#[trigger] bfuncs@.push(f)[i]).lead.0
                                == processed[t] by {
                            if t < processed.len() - 1 {
                                assert(processed[t] == prev[t]);
                                let i = choose|i: int|
                                    0 <= i < bfuncs@.len() && (#[trigger] bfuncs@[i]).lead.0
                                        == prev[t];
                                assert(bfuncs@.push(f)[i].lead.0 == processed[t]);
                            } else {
                                assert(bfuncs@.push(f)[bfuncs@.len() as int].lead.0
                                    == processed[t]);
                            }
                        }
                        assert forall|i: int|
                            0 <= i < bfuncs@.len() + 1 implies first_of_orbit(
                            (#[trigger] bfuncs@.push(f)[i]).lead.0 as nat,
                            nxn,
                            nyn,
                        ) by {
                            if i < bfuncs@.len() {
                                assert(bfuncs@.push(f)[i] == bfuncs@[i]);
                            } else {
                                assert(bfuncs@.push(f)[i] == f);
                            }
                        }
                        assert forall|m: nat|
                            m < dec + 1 && #[trigger] survives(m, nxn, nyn, kxn, kyn)
                                && first_of_orbit(m, nxn, nyn) implies has_lead(
                            bfuncs@.push(f),
                            m,
                        ) by {
                            if m < dec {
                                let i = choose|i: int|
                                    0 <= i < bfuncs@.len() && (#[trigger] bfuncs@[i]).lead.0 == m;
                                assert(bfuncs@.push(f)[i].lead.0 == m);
                            } else {
                                assert(bfuncs@.push(f)[bfuncs@.len() as int].lead.0 == m);
                            }
                        }
                    }
                    bfuncs.push(f);
                },
                None => {
                    proof {
                        assert(!survives(dec as nat, nxn, nyn, kxn, kyn));
                    }
                },
            }
        } else {
            proof {
                assert forall|m: nat|
                    m < dec + 1 && #[trigger] survives(m, nxn, nyn, kxn, kyn) && first_of_orbit(
                        m,
                        nxn,
                        nyn,
                    ) implies has_lead(bfuncs@, m) by {
                    if m == dec {
                        let t = choose|t: int|
                            0 <= t < processed.len() && walk_contains(
                                #[trigger] processed[t],
                                nxn,
                                nyn,
                                m,
                            );
                        assert(processed[t] < m);
                        assert(!walk_contains(processed[t], nxn, nyn, m));
                        assert(false);
                    }
                }
            }
        }
        dec = dec + 1;
    }
    let table = BlochFuncSet::create(nx, ny, bfuncs);
    proof {
        assert forall|i: int, s: nat|
            0 <= i < table.funcs@.len() && s < nx.raw * ny.raw implies #[trigger] walk_step(
            table.funcs@[i].lead.0 as nat,
            nxn,
            nyn,
            s,
        ) >= table.funcs@[i].lead.0 by {
            lemma_first_of_orbit_is_min(table.funcs@[i].lead.0 as nat, nxn, nyn, s);
        }
        assert forall|m: nat| m < pow2((nx.raw * ny.raw) as nat) implies emitted_covers(
            table.funcs@,
            nxn,
            nyn,
            m,
        ) || (exists|l: nat|
            l < pow2((nx.raw * ny.raw) as nat) && !survives(l, nxn, nyn, kxn, kyn)
                && walk_contains(l, nxn, nyn, m)) by {
            assert(!sieve@[m as int]);
            let t = choose|t: int|
                0 <= t < processed.len() && walk_contains(#[trigger] processed[t], nxn, nyn, m);
            let l = processed[t];
            if survives(l, nxn, nyn, kxn, kyn) {
                let i = choose|i: int|
                    0 <= i < table.funcs@.len() && (#[trigger] table.funcs@[i]).lead.0 == l;
                assert(walk_contains(table.funcs@[i].lead.0 as nat, nxn, nyn, m));
                assert(emitted_covers(table.funcs@, nxn, nyn, m));
            } else {
                assert(l < pow2((nx.raw * ny.raw) as nat) && !survives(l, nxn, nyn, kxn, kyn)
                    && walk_contains(l, nxn, nyn, m));
            }
        }
    }
    table
}

} // verus!
