//! Bloch functions: momentum symmetry-adapted superpositions of the binary
//! basis configurations related by lattice translation.
//!
//! All phase arithmetic is exact.  Every phase occurring in an orbit walk is
//! an `n`-th root of unity (`n = nx * ny`), recorded by its integer exponent
//! `t` standing for `exp(2*pi*i*t/n)`.  An accumulated coefficient is then a
//! positive integer multiple of a single root of unity whenever the orbit
//! contributes a state at the chosen momentum, so a `BlochFunc` stores, per
//! orbit member, that multiplicity and that exponent, and its squared norm is
//! a plain integer.

use vstd::prelude::*;
use vstd::arithmetic::power2::pow2;
use crate::basis::{
    BinaryBasis,
    tx_spec,
    ty_spec,
    iter_tx,
    iter_ty,
    valid_dims,
    in_range,
    translate_x,
    translate_y,
    lemma_iter_tx_add,
    lemma_iter_ty_add,
    lemma_iter_tx_bound,
    lemma_iter_ty_bound,
    lemma_iter_tx_reduce,
    lemma_iter_ty_reduce,
    lemma_iter_ty_iter_tx,
    lemma_translate_x_order,
};
use crate::params::Dim;

verus! {

broadcast use vstd::seq_lib::group_to_multiset_ensures, vstd::multiset::group_multiset_axioms;

/// The configuration reached after `s` steps of the orbit walk.  Each step
/// translates one column to the right; every time a full row of `nx` steps
/// completes, a row translation is folded in as well, so steps
/// `s = j*nx + i` realize all `nx * ny` elements of the translation group.
pub open spec fn walk_step(dec: nat, nx: nat, ny: nat, s: nat) -> nat
    decreases s,
{
    if s == 0 {
        dec
    } else {
        let p = walk_step(dec, nx, ny, (s - 1) as nat);
        if s % nx == 0 {
            ty_spec(tx_spec(p, nx, ny), nx, ny)
        } else {
            tx_spec(p, nx, ny)
        }
    }
}

/// The momentum phase attached to walk step `s = j*nx + i`, as the exponent
/// `t` of the primitive root of unity `exp(2*pi*i/(nx*ny))`: the translation
/// `(i, j)` carries the phase `exp(2*pi*i*(i*kx/nx + j*ky/ny))`, i.e. the
/// exponent `(i*kx*ny + j*ky*nx) % (nx*ny)`.
pub open spec fn exp_at(nx: nat, ny: nat, kx: nat, ky: nat, s: nat) -> nat {
    ((s % nx) * kx * ny + (s / nx) * ky * nx) % (nx * ny)
}

/// How many of the first `upto` walk steps from `dec` land on member `m`.
pub open spec fn walk_count(dec: nat, nx: nat, ny: nat, m: nat, upto: nat) -> nat
    decreases upto,
{
    if upto == 0 {
        0
    } else {
        walk_count(dec, nx, ny, m, (upto - 1) as nat) + if walk_step(
            dec,
            nx,
            ny,
            (upto - 1) as nat,
        ) == m {
            1nat
        } else {
            0nat
        }
    }
}

/// A positive walk count exhibits a step landing on the member: every
/// entry of a Bloch function is reached by the orbit walk.
pub proof fn lemma_walk_count_witness(dec: nat, nx: nat, ny: nat, m: nat, upto: nat)
    requires
        walk_count(dec, nx, ny, m, upto) > 0,
    ensures
        exists|s: nat| s < upto && walk_step(dec, nx, ny, s) == m,
    decreases upto,
{
    if upto > 0 {
        if walk_step(dec, nx, ny, (upto - 1) as nat) == m {
            assert(((upto - 1) as nat) < upto && walk_step(dec, nx, ny, (upto - 1) as nat) == m);
        } else {
            lemma_walk_count_witness(dec, nx, ny, m, (upto - 1) as nat);
            let s = choose|s: nat|
                s < (upto - 1) as nat && walk_step(dec, nx, ny, s) == m;
            assert(s < upto && walk_step(dec, nx, ny, s) == m);
        }
    }
}

/// Whether some step of the orbit walk from `lead` lands on `m`.
pub open spec fn walk_contains(lead: nat, nx: nat, ny: nat, m: nat) -> bool {
    exists|s: nat| s < nx * ny && walk_step(lead, nx, ny, s) == m
}

/// Every walk step is a group element: step `s = j*nx + i` applies `i`
/// column translations to `j` row translations of the start.
pub proof fn lemma_walk_canonical(dec: nat, nx: nat, ny: nat, s: nat)
    requires
        1 <= nx,
        1 <= ny,
        nx * ny <= 62,
        dec < pow2((nx * ny) as nat),
        s < nx * ny,
    ensures
        walk_step(dec, nx, ny, s) == iter_tx(iter_ty(dec, nx, ny, s / nx), nx, ny, s % nx),
    decreases s,
{
    if s == 0 {
        vstd::arithmetic::div_mod::lemma_small_mod(0, nx);
        vstd::arithmetic::div_mod::lemma_div_basics(nx as int);
        assert(s / nx == 0 && s % nx == 0) by (nonlinear_arith)
            requires
                s == 0 && 1 <= nx,
        ;
    } else {
        lemma_walk_canonical(dec, nx, ny, (s - 1) as nat);
        let sp = (s - 1) as nat;
        if s % nx == 0 {
            assert(s >= nx && sp % nx == nx - 1 && sp / nx == s / nx - 1) by (nonlinear_arith)
                requires
                    s % nx == 0 && 1 <= s && 1 <= nx && sp == s - 1,
            ;
            let y = iter_ty(dec, nx, ny, (s / nx - 1) as nat);
            lemma_iter_ty_bound(dec, nx, ny, (s / nx - 1) as nat);
            // a full row of column steps cancels, leaving one row step
            assert(tx_spec(iter_tx(y, nx, ny, (nx - 1) as nat), nx, ny) == iter_tx(y, nx, ny, nx));
            lemma_translate_x_order(y, nx, ny);
            assert(walk_step(dec, nx, ny, s) == ty_spec(
                tx_spec(walk_step(dec, nx, ny, sp), nx, ny),
                nx,
                ny,
            ));
            assert(walk_step(dec, nx, ny, sp) == iter_tx(y, nx, ny, (nx - 1) as nat));
            assert(tx_spec(walk_step(dec, nx, ny, sp), nx, ny) == y);
            assert(walk_step(dec, nx, ny, s) == ty_spec(y, nx, ny));
            assert(ty_spec(y, nx, ny) == iter_ty(dec, nx, ny, s / nx));
            assert(iter_tx(iter_ty(dec, nx, ny, s / nx), nx, ny, 0) == iter_ty(dec, nx, ny, s / nx));
        } else {
            assert(sp % nx == s % nx - 1 && sp / nx == s / nx) by (nonlinear_arith)
                requires
                    s % nx != 0 && 1 <= s && 1 <= nx && sp == s - 1,
            ;
            assert(walk_step(dec, nx, ny, s) == tx_spec(walk_step(dec, nx, ny, sp), nx, ny));
            assert(iter_tx(iter_ty(dec, nx, ny, s / nx), nx, ny, s % nx) == tx_spec(
                iter_tx(iter_ty(dec, nx, ny, s / nx), nx, ny, (s % nx - 1) as nat),
                nx,
                ny,
            ));
        }
    }
}

/// Two walks compose into one: the step indices add coordinatewise modulo
/// the lattice periods.
pub proof fn lemma_walk_compose(dec: nat, nx: nat, ny: nat, s1: nat, s2: nat)
    requires
        1 <= nx,
        1 <= ny,
        nx * ny <= 62,
        dec < pow2((nx * ny) as nat),
        s1 < nx * ny,
        s2 < nx * ny,
    ensures
        ((s1 / nx + s2 / nx) % ny) * nx + (s1 % nx + s2 % nx) % nx < nx * ny,
        walk_step(walk_step(dec, nx, ny, s1), nx, ny, s2) == walk_step(
            dec,
            nx,
            ny,
            (((s1 / nx + s2 / nx) % ny) * nx + (s1 % nx + s2 % nx) % nx) as nat,
        ),
{
    let i1 = s1 % nx;
    let j1 = s1 / nx;
    let i2 = s2 % nx;
    let j2 = s2 / nx;
    let i3 = (i1 + i2) % nx;
    let j3 = (j1 + j2) % ny;
    let s3 = (j3 * nx + i3) as nat;
    assert(j1 < ny && j2 < ny && i3 < nx && j3 < ny && s3 < nx * ny && s3 % nx == i3 && s3 / nx
        == j3) by (nonlinear_arith)
        requires
            s1 < nx * ny && s2 < nx * ny && 1 <= nx && 1 <= ny && i1 == s1 % nx && j1 == s1 / nx
                && i2 == s2 % nx && j2 == s2 / nx && i3 == (i1 + i2) % nx && j3 == (j1 + j2) % ny
                && s3 == j3 * nx + i3,
    ;
    let w = walk_step(dec, nx, ny, s1);
    lemma_walk_canonical(dec, nx, ny, s1);
    lemma_iter_ty_bound(dec, nx, ny, j1);
    lemma_iter_tx_bound(iter_ty(dec, nx, ny, j1), nx, ny, i1);
    lemma_walk_canonical(w, nx, ny, s2);
    // pull the second walk's row steps through the first walk's column steps
    lemma_iter_ty_iter_tx(iter_ty(dec, nx, ny, j1), nx, ny, i1, j2);
    lemma_iter_ty_add(dec, nx, ny, j1, j2);
    // then merge the column steps and reduce both exponents
    lemma_iter_tx_add(iter_ty(dec, nx, ny, (j1 + j2) as nat), nx, ny, i1, i2);
    lemma_iter_ty_bound(dec, nx, ny, (j1 + j2) as nat);
    lemma_iter_tx_reduce(iter_ty(dec, nx, ny, (j1 + j2) as nat), nx, ny, (i1 + i2) as nat);
    lemma_iter_ty_reduce(dec, nx, ny, (j1 + j2) as nat);
    assert((i1 + i2) % nx == i3 && (j1 + j2) % ny == j3);
    lemma_walk_canonical(dec, nx, ny, s3);
}

/// Reachability by translation is transitive.
pub proof fn lemma_walk_contains_trans(d: nat, l: nat, m: nat, nx: nat, ny: nat)
    requires
        1 <= nx,
        1 <= ny,
        nx * ny <= 62,
        d < pow2((nx * ny) as nat),
        walk_contains(d, nx, ny, l),
        walk_contains(l, nx, ny, m),
    ensures
        walk_contains(d, nx, ny, m),
{
    let s1 = choose|s1: nat| s1 < nx * ny && walk_step(d, nx, ny, s1) == l;
    let s2 = choose|s2: nat| s2 < nx * ny && walk_step(l, nx, ny, s2) == m;
    lemma_walk_compose(d, nx, ny, s1, s2);
}

/// Reachability by translation is symmetric: the inverse translation is
/// itself a translation.
pub proof fn lemma_walk_contains_sym(d: nat, m: nat, nx: nat, ny: nat)
    requires
        1 <= nx,
        1 <= ny,
        nx * ny <= 62,
        d < pow2((nx * ny) as nat),
        walk_contains(d, nx, ny, m),
    ensures
        walk_contains(m, nx, ny, d),
{
    let s = choose|s: nat| s < nx * ny && walk_step(d, nx, ny, s) == m;
    let i = s % nx;
    let j = s / nx;
    let i2 = ((nx as int - i as int) % nx as int) as nat;
    let j2 = ((ny as int - j as int) % ny as int) as nat;
    let s2 = (j2 * nx + i2) as nat;
    assert(i2 < nx && j2 < ny && j < ny && s2 < nx * ny && s2 % nx == i2 && s2 / nx == j2 && (i
        + i2) % nx == 0 && (j + j2) % ny == 0) by (nonlinear_arith)
        requires
            s < nx * ny && 1 <= nx && 1 <= ny && i == s % nx && j == s / nx && i2 == (nx as int
                - i as int) % nx as int && j2 == (ny as int - j as int) % ny as int && s2 == j2
                * nx + i2,
    ;
    lemma_walk_compose(d, nx, ny, s, s2);
    assert(walk_step(m, nx, ny, s2) == walk_step(d, nx, ny, 0));
}

/// Walk steps stay inside the configuration window.
pub proof fn lemma_walk_step_bound(dec: nat, nx: nat, ny: nat, s: nat)
    requires
        1 <= nx,
        1 <= ny,
        nx * ny <= 62,
        dec < pow2((nx * ny) as nat),
    ensures
        walk_step(dec, nx, ny, s) < pow2((nx * ny) as nat),
    decreases s,
{
    if s > 0 {
        lemma_walk_step_bound(dec, nx, ny, (s - 1) as nat);
        let p = walk_step(dec, nx, ny, (s - 1) as nat);
        crate::basis::lemma_tx_spec_bound(p, nx, ny);
        if s % nx == 0 {
            crate::basis::lemma_ty_bounds(tx_spec(p, nx, ny), nx, ny);
        }
    }
}

/// Walk steps conserve the number of up spins: every orbit stays inside
/// its magnetization sector.
pub proof fn lemma_walk_step_popcount(dec: nat, nx: nat, ny: nat, s: nat)
    requires
        1 <= nx,
        1 <= ny,
        nx * ny <= 62,
        dec < pow2((nx * ny) as nat),
    ensures
        crate::basis::popcount(walk_step(dec, nx, ny, s)) == crate::basis::popcount(dec),
    decreases s,
{
    if s > 0 {
        lemma_walk_step_popcount(dec, nx, ny, (s - 1) as nat);
        lemma_walk_step_bound(dec, nx, ny, (s - 1) as nat);
        let p = walk_step(dec, nx, ny, (s - 1) as nat);
        crate::basis::lemma_translate_x_preserves_popcount(p, nx, ny);
        if s % nx == 0 {
            crate::basis::lemma_tx_spec_bound(p, nx, ny);
            crate::basis::lemma_translate_y_preserves_popcount(tx_spec(p, nx, ny), nx, ny);
        }
    }
}

/// An orbit survives at a given momentum when the phases attached to its
/// members add constructively: every pair of walk steps landing on the same
/// configuration carries the same phase exponent.  (The steps landing on one
/// member form a coset of the lead's stabilizer, so when this fails the
/// coefficient of every member is a sum over a nontrivial subgroup of roots
/// of unity, which vanishes: the orbit carries no state at this momentum.)
pub open spec fn survives(dec: nat, nx: nat, ny: nat, kx: nat, ky: nat) -> bool {
    forall|s1: nat, s2: nat|
        s1 < nx * ny && s2 < nx * ny && #[trigger] walk_step(dec, nx, ny, s1)
            == #[trigger] walk_step(dec, nx, ny, s2) ==> exp_at(nx, ny, kx, ky, s1) == exp_at(
            nx,
            ny,
            kx,
            ky,
            s2,
        )
}

/// One orbit member inside a Bloch function: the configuration, the common
/// phase exponent of every translation landing on it, and how many
/// translations do.  The member's complex coefficient is
/// `mult * exp(2*pi*i*phase/n)`.
#[derive(Clone, Copy, Debug, PartialEq, Eq, Structural)]
pub struct DecEntry {
    pub dec: BinaryBasis,
    pub phase: u64,
    pub mult: u64,
}

/// The sum of squared multiplicities over the entries: since every surviving
/// member's coefficient has magnitude `mult`, this is the squared norm of
/// the Bloch function.
pub open spec fn sq_sum(s: Seq<DecEntry>) -> nat
    decreases s.len(),
{
    if s.len() == 0 {
        0
    } else {
        sq_sum(s.drop_last()) + (s.last().mult * s.last().mult) as nat
    }
}

/// One symmetry-adapted basis vector: the first-encountered representative
/// of a translation orbit, the orbit members with their exact phase-sum
/// coefficients, and the squared normalization.
pub struct BlochFunc {
    pub lead: BinaryBasis,
    pub decs: Vec<DecEntry>,
    pub norm_sqr: u64,
}

/// Well-formedness of one Bloch function for the lattice `(nx, ny)` at
/// momentum `(kx, ky)`: the entries are exactly the members of the lead's
/// translation orbit, without repetition; each entry counts the walk steps
/// landing on it and records their common phase exponent; and the squared
/// norm adds up the squared multiplicities.
pub open spec fn bloch_wf(f: &BlochFunc, nx: nat, ny: nat, kx: nat, ky: nat) -> bool {
    let n = nx * ny;
    &&& in_range(f.lead.0 as nat, n)
    &&& survives(f.lead.0 as nat, nx, ny, kx, ky)
    &&& f.decs@.len() >= 1
    &&& (forall|a: int, b: int|
        0 <= a < b < f.decs@.len() ==> (#[trigger] f.decs@[a]).dec.0 != (
        #[trigger] f.decs@[b]).dec.0)
    &&& (forall|a: int|
        0 <= a < f.decs@.len() ==> (#[trigger] f.decs@[a]).mult == walk_count(
            f.lead.0 as nat,
            nx,
            ny,
            f.decs@[a].dec.0 as nat,
            n,
        ) && f.decs@[a].mult >= 1)
    &&& (forall|a: int, s: nat|
        0 <= a < f.decs@.len() && s < n && walk_step(f.lead.0 as nat, nx, ny, s) == (
        #[trigger] f.decs@[a]).dec.0 ==> #[trigger] exp_at(nx, ny, kx, ky, s) == f.decs@[a].phase)
    &&& (forall|s: nat|
        s < n ==> walk_covered(f, nx, ny, s))
    &&& f.norm_sqr == sq_sum(f.decs@)
}

/// Step `s` of the walk from `f.lead` lands on some entry of `f.decs`.
pub open spec fn walk_covered(f: &BlochFunc, nx: nat, ny: nat, s: nat) -> bool {
    covers(f.decs@, walk_step(f.lead.0 as nat, nx, ny, s))
}

/// Records the full orbit walk from `dec`: entry `s` is the configuration
/// reached after `s` steps together with the phase exponent of step `s`.
fn orbit_contribs(dec: BinaryBasis, nx: u32, ny: u32, kx: u32, ky: u32) -> (c: Vec<
    (BinaryBasis, u64),
>)
    requires
        valid_dims(nx, ny),
        kx < nx,
        ky < ny,
        in_range(dec.0 as nat, (nx * ny) as nat),
    ensures
        c@.len() == nx * ny,
        forall|s: int|
            0 <= s < c@.len() ==> (#[trigger] c@[s]).0.0 == walk_step(
                dec.0 as nat,
                nx as nat,
                ny as nat,
                s as nat,
            ) && c@[s].1 == exp_at(nx as nat, ny as nat, kx as nat, ky as nat, s as nat) && in_range(
                c@[s].0.0 as nat,
                (nx * ny) as nat,
            ),
{
    let n = nx * ny;
    let n64 = n as u64;
    let mut c: Vec<(BinaryBasis, u64)> = Vec::new();
    let mut cur = dec;
    let mut s: u32 = 0;
    while s < n
        invariant
            valid_dims(nx, ny),
            kx < nx,
            ky < ny,
            n == nx * ny,
            n64 == n,
            s <= n,
            in_range(dec.0 as nat, (nx * ny) as nat),
            cur.0 == walk_step(dec.0 as nat, nx as nat, ny as nat, s as nat),
            in_range(cur.0 as nat, (nx * ny) as nat),
            c@.len() == s,
            forall|q: int|
                0 <= q < c@.len() ==> (#[trigger] c@[q]).0.0 == walk_step(
                    dec.0 as nat,
                    nx as nat,
                    ny as nat,
                    q as nat,
                ) && c@[q].1 == exp_at(nx as nat, ny as nat, kx as nat, ky as nat, q as nat)
                    && in_range(c@[q].0.0 as nat, (nx * ny) as nat),
        decreases n - s,
    {
        let i = s % nx;
        let j = s / nx;
        proof {
            assert(j < ny && nx <= 62 && ny <= 62) by (nonlinear_arith)
                requires
                    s < nx * ny && j == s / nx && 1 <= nx && 1 <= ny && nx * ny <= 62,
            ;
            assert((i as u64) * (kx as u64) <= 61 * 61 && (i as u64) * (kx as u64) * (ny as u64)
                <= 61 * 61 * 62 && (j as u64) * (ky as u64) <= 61 * 61 && (j as u64) * (ky as u64)
                * (nx as u64) <= 61 * 61 * 62) by (nonlinear_arith)
                requires
                    i < nx && kx < nx && ky < ny && j < ny && nx <= 62 && ny <= 62,
            ;
        }
        let t = ((i as u64) * (kx as u64) * (ny as u64) + (j as u64) * (ky as u64) * (nx as u64))
            % n64;
        proof {
            assert(t == exp_at(nx as nat, ny as nat, kx as nat, ky as nat, s as nat));
        }
        c.push((cur, t));
        let stepped = translate_x(cur, nx, ny);
        let cur2 = if (s + 1) % nx == 0 {
            translate_y(stepped, nx, ny)
        } else {
            stepped
        };
        proof {
            assert(cur2.0 == walk_step(dec.0 as nat, nx as nat, ny as nat, (s + 1) as nat));
        }
        cur = cur2;
        s = s + 1;
    }
    c
}

/// Decides whether the recorded walk contributions add constructively:
/// true exactly when any two steps landing on the same configuration carry
/// the same phase exponent.
fn contribs_survive(c: &Vec<(BinaryBasis, u64)>) -> (b: bool)
    ensures
        b == (forall|s1: int, s2: int|
            0 <= s1 < c@.len() && 0 <= s2 < c@.len() && (#[trigger] c@[s1]).0.0 == (
            #[trigger] c@[s2]).0.0 ==> c@[s1].1 == c@[s2].1),
{
    let mut p: usize = 0;
    while p < c.len()
        invariant
            p <= c@.len(),
            forall|s1: int, s2: int|
                0 <= s1 < p && 0 <= s2 < c@.len() && (#[trigger] c@[s1]).0.0 == (
                #[trigger] c@[s2]).0.0 ==> c@[s1].1 == c@[s2].1,
        decreases c@.len() - p,
    {
        let mut q: usize = 0;
        while q < c.len()
            invariant
                p < c@.len(),
                q <= c@.len(),
                forall|s2: int|
                    0 <= s2 < q && (#[trigger] c@[s2]).0.0 == c@[p as int].0.0 ==> c@[s2].1
                        == c@[p as int].1,
            decreases c@.len() - q,
        {
            if c[q].0.0 == c[p].0.0 && c[q].1 != c[p].1 {
                return false;
            }
            q = q + 1;
        }
        p = p + 1;
    }
    true
}

/// Some entry of `g` holds configuration `d`.
pub open spec fn covers(g: Seq<DecEntry>, d: nat) -> bool {
    exists|a: int| 0 <= a < g.len() && (#[trigger] g[a]).dec.0 == d
}

/// How many entries of `c` hold configuration `d`.
pub open spec fn count_in(c: Seq<(BinaryBasis, u64)>, d: u64) -> nat
    decreases c.len(),
{
    if c.len() == 0 {
        0
    } else {
        count_in(c.drop_last(), d) + if c.last().0.0 == d {
            1nat
        } else {
            0nat
        }
    }
}

/// `count_in` over a prefix of the recorded walk agrees with `walk_count`.
proof fn lemma_count_bridge(
    c: Seq<(BinaryBasis, u64)>,
    dec: nat,
    nx: nat,
    ny: nat,
    d: u64,
    upto: nat,
)
    requires
        upto <= c.len(),
        forall|s: int|
            0 <= s < c.len() ==> (#[trigger] c[s]).0.0 == walk_step(dec, nx, ny, s as nat),
    ensures
        count_in(c.take(upto as int), d) == walk_count(dec, nx, ny, d as nat, upto),
    decreases upto,
{
    if upto > 0 {
        lemma_count_bridge(c, dec, nx, ny, d, (upto - 1) as nat);
        assert(c.take(upto as int).drop_last() =~= c.take(upto as int - 1));
        assert(c.take(upto as int).last() == c[upto as int - 1]);
    }
}

/// Each configuration appears in `c` at most `c.len()` times.
proof fn lemma_count_in_le(c: Seq<(BinaryBasis, u64)>, d: u64)
    ensures
        count_in(c, d) <= c.len(),
    decreases c.len(),
{
    if c.len() > 0 {
        lemma_count_in_le(c.drop_last(), d);
    }
}

/// Groups the recorded walk contributions by configuration: one entry per
/// distinct member, counting its hits and keeping the phase exponent of one
/// of them.
fn group_contribs(c: &Vec<(BinaryBasis, u64)>) -> (g: Vec<DecEntry>)
    ensures
        g@.len() <= c@.len(),
        forall|a: int, b: int|
            0 <= a < b < g@.len() ==> (#[trigger] g@[a]).dec.0 != (#[trigger] g@[b]).dec.0,
        forall|a: int|
            0 <= a < g@.len() ==> (#[trigger] g@[a]).mult == count_in(c@, g@[a].dec.0)
                && g@[a].mult >= 1 && exists|s: int|
                0 <= s < c@.len() && (#[trigger] c@[s]).0.0 == g@[a].dec.0 && c@[s].1
                    == g@[a].phase,
        forall|s: int| 0 <= s < c@.len() ==> covers(g@, (#[trigger] c@[s]).0.0 as nat),
{
    let mut g: Vec<DecEntry> = Vec::new();
    let mut s: usize = 0;
    while s < c.len()
        invariant
            s <= c@.len(),
            g@.len() <= s,
            forall|a: int, b: int|
                0 <= a < b < g@.len() ==> (#[trigger] g@[a]).dec.0 != (#[trigger] g@[b]).dec.0,
            forall|a: int|
                0 <= a < g@.len() ==> (#[trigger] g@[a]).mult == count_in(c@, g@[a].dec.0)
                    && g@[a].mult >= 1 && exists|q: int|
                    0 <= q < c@.len() && (#[trigger] c@[q]).0.0 == g@[a].dec.0 && c@[q].1
                        == g@[a].phase,
            forall|q: int| 0 <= q < s ==> covers(g@, (#[trigger] c@[q]).0.0 as nat),
        decreases c@.len() - s,
    {
        let d = c[s].0;
        let mut found = false;
        let mut b: usize = 0;
        while b < g.len()
            invariant
                b <= g@.len(),
                found ==> covers(g@, d.0 as nat),
                !found ==> forall|a: int| 0 <= a < b ==> (#[trigger] g@[a]).dec.0 != d.0,
            decreases g@.len() - b,
        {
            if g[b].dec.0 == d.0 {
                found = true;
            }
            b = b + 1;
        }
        let ghost g_pre = g@;
        if !found {
            let mut cnt: usize = 0;
            let mut q: usize = 0;
            while q < c.len()
                invariant
                    q <= c@.len(),
                    cnt == count_in(c@.take(q as int), d.0),
                    cnt <= q,
                    q > s ==> cnt >= 1,
                    s < c@.len(),
                    c@[s as int].0.0 == d.0,
                decreases c@.len() - q,
            {
                proof {
                    assert(c@.take(q as int + 1).drop_last() =~= c@.take(q as int));
                    assert(c@.take(q as int + 1).last() == c@[q as int]);
                }
                if c[q].0.0 == d.0 {
                    cnt = cnt + 1;
                }
                q = q + 1;
            }
            proof {
                assert(c@.take(c@.len() as int) =~= c@);
            }
            g.push(DecEntry { dec: d, phase: c[s].1, mult: cnt as u64 });
        }
        proof {
            assert forall|q: int| 0 <= q < s + 1 implies covers(
                g@,
                (#[trigger] c@[q]).0.0 as nat,
            ) by {
                if q < s {
                    let a = choose|a: int|
                        0 <= a < g_pre.len() && (#[trigger] g_pre[a]).dec.0 == c@[q].0.0 as nat;
                    assert(0 <= a < g@.len() && g@[a].dec.0 == c@[q].0.0 as nat);
                } else if !found {
                    assert(g@[g@.len() - 1].dec.0 == d.0);
                    assert(g@[g@.len() - 1].dec.0 == c@[q].0.0 as nat);
                }
            }
        }
        s = s + 1;
    }
    g
}

/// Adds up the squared multiplicities of the entries.
fn sum_sq(g: &Vec<DecEntry>) -> (r: u64)
    requires
        g@.len() <= 62,
        forall|a: int| 0 <= a < g@.len() ==> (#[trigger] g@[a]).mult <= 62,
    ensures
        r == sq_sum(g@),
{
    let mut r: u64 = 0;
    let mut a: usize = 0;
    while a < g.len()
        invariant
            a <= g@.len(),
            g@.len() <= 62,
            forall|b: int| 0 <= b < g@.len() ==> (#[trigger] g@[b]).mult <= 62,
            r == sq_sum(g@.take(a as int)),
            r <= a * 62 * 62,
        decreases g@.len() - a,
    {
        proof {
            assert(g@.take(a as int + 1).drop_last() =~= g@.take(a as int));
            assert(g@.take(a as int + 1).last() == g@[a as int]);
            assert(g@[a as int].mult * g@[a as int].mult <= 62 * 62) by (nonlinear_arith)
                requires
                    g@[a as int].mult <= 62,
            ;
        }
        r = r + g[a].mult * g[a].mult;
        a = a + 1;
    }
    proof {
        assert(g@.take(g@.len() as int) =~= g@);
    }
    r
}

/// Walks the full translation orbit of `dec`, returning the raw step record
/// (for visited-set marking) and, when the phases add constructively, the
/// finished Bloch function for this orbit.
#[verifier::rlimit(60)]
pub(crate) fn build_bloch_func(dec: BinaryBasis, nx: u32, ny: u32, kx: u32, ky: u32) -> (r: (
    Vec<(BinaryBasis, u64)>,
    Option<BlochFunc>,
))
    requires
        valid_dims(nx, ny),
        kx < nx,
        ky < ny,
        in_range(dec.0 as nat, (nx * ny) as nat),
    ensures
        r.0@.len() == nx * ny,
        forall|s: int|
            0 <= s < r.0@.len() ==> (#[trigger] r.0@[s]).0.0 == walk_step(
                dec.0 as nat,
                nx as nat,
                ny as nat,
                s as nat,
            ) && in_range(r.0@[s].0.0 as nat, (nx * ny) as nat),
        r.1 is Some <==> survives(dec.0 as nat, nx as nat, ny as nat, kx as nat, ky as nat),
        r.1 is Some ==> bloch_wf(&r.1->0, nx as nat, ny as nat, kx as nat, ky as nat)
            && r.1->0.lead == dec,
{
    let n = nx * ny;
    let c = orbit_contribs(dec, nx, ny, kx, ky);
    let ok = contribs_survive(&c);
    proof {
        if ok {
            assert forall|s1: nat, s2: nat|
                s1 < nx * ny && s2 < nx * ny && #[trigger] walk_step(
                    dec.0 as nat,
                    nx as nat,
                    ny as nat,
                    s1,
                ) == #[trigger] walk_step(dec.0 as nat, nx as nat, ny as nat, s2) implies exp_at(
                nx as nat,
                ny as nat,
                kx as nat,
                ky as nat,
                s1,
            ) == exp_at(nx as nat, ny as nat, kx as nat, ky as nat, s2) by {
                assert(c@[s1 as int].0.0 == walk_step(dec.0 as nat, nx as nat, ny as nat, s1));
                assert(c@[s2 as int].0.0 == walk_step(dec.0 as nat, nx as nat, ny as nat, s2));
            }
            assert(survives(dec.0 as nat, nx as nat, ny as nat, kx as nat, ky as nat));
        } else {
            let (s1, s2) = choose|s1: int, s2: int|
                0 <= s1 < c@.len() && 0 <= s2 < c@.len() && (#[trigger] c@[s1]).0.0 == (
                #[trigger] c@[s2]).0.0 && c@[s1].1 != c@[s2].1;
            assert(walk_step(dec.0 as nat, nx as nat, ny as nat, s1 as nat) == walk_step(
                dec.0 as nat,
                nx as nat,
                ny as nat,
                s2 as nat,
            ) && exp_at(nx as nat, ny as nat, kx as nat, ky as nat, s1 as nat) != exp_at(
                nx as nat,
                ny as nat,
                kx as nat,
                ky as nat,
                s2 as nat,
            ));
            assert(!survives(dec.0 as nat, nx as nat, ny as nat, kx as nat, ky as nat));
        }
    }
    if !ok {
        return (c, None);
    }
    let g = group_contribs(&c);
    proof {
        assert forall|a: int| 0 <= a < g@.len() implies (#[trigger] g@[a]).mult <= 62 by {
            lemma_count_in_le(c@, g@[a].dec.0);
        }
    }
    let norm_sqr = sum_sq(&g);
    let f = BlochFunc { lead: dec, decs: g, norm_sqr };
    proof {
        let nxn = nx as nat;
        let nyn = ny as nat;
        let kxn = kx as nat;
        let kyn = ky as nat;
        let nn = nxn * nyn;
        // multiplicities are exact walk counts
        assert forall|a: int| 0 <= a < f.decs@.len() implies (#[trigger] f.decs@[a]).mult
            == walk_count(f.lead.0 as nat, nxn, nyn, f.decs@[a].dec.0 as nat, nn)
            && f.decs@[a].mult >= 1 by {
            lemma_count_bridge(c@, dec.0 as nat, nxn, nyn, f.decs@[a].dec.0, c@.len());
            assert(c@.take(c@.len() as int) =~= c@);
        }
        // every step landing on an entry carries that entry's phase exponent
        assert forall|a: int, s: nat|
            0 <= a < f.decs@.len() && s < nn && walk_step(f.lead.0 as nat, nxn, nyn, s) == (
            #[trigger] f.decs@[a]).dec.0 implies #[trigger] exp_at(nxn, nyn, kxn, kyn, s)
            == f.decs@[a].phase by {
            let q = choose|q: int|
                0 <= q < c@.len() && (#[trigger] c@[q]).0.0 == f.decs@[a].dec.0 && c@[q].1
                    == f.decs@[a].phase;
            assert(walk_step(dec.0 as nat, nxn, nyn, q as nat) == f.decs@[a].dec.0);
            assert(c@[s as int].0.0 == walk_step(dec.0 as nat, nxn, nyn, s));
        }
        // every walk step is covered by some entry
        assert forall|s: nat| s < nn implies walk_covered(&f, nxn, nyn, s) by {
            assert(c@[s as int].0.0 == walk_step(dec.0 as nat, nxn, nyn, s));
            assert(covers(g@, c@[s as int].0.0 as nat));
        }
        // the orbit is never empty: step 0 lands on the lead itself
        assert(nn >= 1) by (nonlinear_arith)
            requires
                nn == nxn * nyn && 1 <= nxn && 1 <= nyn,
        ;
        assert(walk_covered(&f, nxn, nyn, 0));
        assert(f.decs@.len() >= 1);
    }
    (c, Some(f))
}

/// The entries are ordered by representative value, smallest first.
pub open spec fn sorted_by_lead(s: Seq<BlochFunc>) -> bool {
    forall|i: int, j: int|
        0 <= i < j < s.len() ==> (#[trigger] s[i]).lead.0 <= (#[trigger] s[j]).lead.0
}

/// No two entries share a representative.
pub open spec fn distinct_leads(s: Seq<BlochFunc>) -> bool {
    forall|i: int, j: int|
        0 <= i < j < s.len() ==> (#[trigger] s[i]).lead.0 != (#[trigger] s[j]).lead.0
}

/// The ordered collection of Bloch functions for one lattice configuration,
/// sorted by representative value after construction.
pub struct BlochFuncSet {
    pub nx: u32,
    pub ny: u32,
    pub funcs: Vec<BlochFunc>,
}

impl BlochFuncSet {
    /// Wraps the collected Bloch functions for an `nx` by `ny` lattice.
    pub fn create(nx: Dim, ny: Dim, bfuncs: Vec<BlochFunc>) -> (r: BlochFuncSet)
        ensures
            r.nx == nx.raw,
            r.ny == ny.raw,
            r.funcs == bfuncs,
    {
        BlochFuncSet { nx: nx.raw, ny: ny.raw, funcs: bfuncs }
    }

    /// The number of Bloch functions held.
    pub fn len(&self) -> (r: usize)
        ensures
            r == self.funcs@.len(),
    {
        self.funcs.len()
    }

    /// The Bloch function at position `i` of the sorted order.
    pub fn get(&self, i: usize) -> (r: &BlochFunc)
        requires
            i < self.funcs@.len(),
        ensures
            r == self.funcs@[i as int],
    {
        &self.funcs[i]
    }

    /// Sorts the collection by representative value.  The entries are
    /// rearranged and nothing else changes.
    pub fn sort(&mut self)
        ensures
            final(self).nx == old(self).nx,
            final(self).ny == old(self).ny,
            final(self).funcs@.to_multiset() == old(self).funcs@.to_multiset(),
            sorted_by_lead(final(self).funcs@),
    {
        let ghost orig = self.funcs@;
        let mut out: Vec<BlochFunc> = Vec::new();
        while self.funcs.len() > 0
            invariant
                self.nx == old(self).nx,
                self.ny == old(self).ny,
                out@.to_multiset().add(self.funcs@.to_multiset()) =~= orig.to_multiset(),
                sorted_by_lead(out@),
                forall|a: int, b: int|
                    0 <= a < out@.len() && 0 <= b < self.funcs@.len() ==> (
                    #[trigger] out@[a]).lead.0 <= (#[trigger] self.funcs@[b]).lead.0,
            decreases self.funcs@.len(),
        {
            let mut m: usize = 0;
            let mut i: usize = 1;
            while i < self.funcs.len()
                invariant
                    m < i <= self.funcs@.len() || (i <= self.funcs@.len() && m == 0),
                    m < self.funcs@.len(),
                    1 <= self.funcs@.len(),
                    forall|b: int|
                        0 <= b < i ==> self.funcs@[m as int].lead.0 <= (
                        #[trigger] self.funcs@[b]).lead.0,
                decreases self.funcs@.len() - i,
            {
                if self.funcs[i].lead.0 < self.funcs[m].lead.0 {
                    m = i;
                }
                i = i + 1;
            }
            let ghost pre = self.funcs@;
            let f = self.funcs.remove(m);
            proof {
                assert(pre.remove(m as int).to_multiset() =~= pre.to_multiset().remove(
                    pre[m as int],
                ));
                assert(out@.push(f).to_multiset() =~= out@.to_multiset().insert(f));
                assert(out@.push(f).to_multiset().add(self.funcs@.to_multiset())
                    =~= orig.to_multiset());
                assert forall|b: int| 0 <= b < self.funcs@.len() implies f.lead.0 <= (
                #[trigger] self.funcs@[b]).lead.0 by {
                    if b < m {
                        assert(self.funcs@[b] == pre[b]);
                    } else {
                        assert(self.funcs@[b] == pre[b + 1]);
                    }
                }
            }
            out.push(f);
        }
        self.funcs = out;
    }
}

} // verus!
