//! Lattice geometry and site-pair generation for the triangular lattice on
//! a torus.
//!
//! Coordinates use the two lattice directions as axes (the second axis at
//! 120 degrees to the first), with periodic wraparound.  Site `(x, y)` maps
//! to bit index `y*nx + x`.  In these coordinates the three
//! nearest-neighbor bond directions of one site are `(1,0)`, `(0,1)` and
//! `(1,1)`; the second-neighbor directions are `(1,2)`, `(2,1)` and
//! `(1,-1)`; the third-neighbor directions are `(2,0)`, `(0,2)` and
//! `(2,2)`.  Listing only these half-sets makes every geometric bond appear
//! exactly once.

use vstd::prelude::*;
use vstd::arithmetic::power2::pow2;
use vstd::arithmetic::div_mod::{lemma_small_mod, lemma_mod_sub_multiples_vanish};
use vstd::arithmetic::power2::lemma_pow2_strictly_increases;
use crate::basis::{BinaryBasis, valid_dims, pow2u64};

verus! {

/// One lattice coordinate on the `nx` by `ny` torus.
#[derive(Clone, Copy, Debug, PartialEq, Eq, Structural)]
pub struct SiteVector {
    pub x: u32,
    pub y: u32,
    pub nx: u32,
    pub ny: u32,
}

impl SiteVector {
    /// The coordinate is inside its lattice.
    pub open spec fn wf(self) -> bool {
        valid_dims(self.nx, self.ny) && self.x < self.nx && self.y < self.ny
    }

    /// Wraps a coordinate pair onto the `nx` by `ny` torus.
    pub fn new(coord: (u32, u32), nx: u32, ny: u32) -> (r: SiteVector)
        requires
            valid_dims(nx, ny),
            coord.0 < nx,
            coord.1 < ny,
        ensures
            r == (SiteVector { x: coord.0, y: coord.1, nx, ny }),
            r.wf(),
    {
        SiteVector { x: coord.0, y: coord.1, nx, ny }
    }

    /// The canonical bit index of this coordinate.
    pub fn lattice_index(self) -> (r: u32)
        requires
            self.wf(),
        ensures
            r == self.y * self.nx + self.x,
            r < self.nx * self.ny,
    {
        proof {
            lemma_site_index_bound(self.x as int, self.y as int, self.nx as int, self.ny as int);
        }
        self.y * self.nx + self.x
    }

    /// Steps `d` sites along the first lattice axis, wrapping around.
    pub fn xhop(self, d: u32) -> (r: SiteVector)
        requires
            self.wf(),
            d <= 124,
        ensures
            r == (SiteVector { x: ((self.x + d) as int % self.nx as int) as u32, ..self }),
            r.wf(),
    {
        proof {
            assert(self.nx <= 62) by (nonlinear_arith)
                requires
                    1 <= self.nx && 1 <= self.ny && self.nx * self.ny <= 62,
            ;
        }
        SiteVector { x: (self.x + d) % self.nx, ..self }
    }

    /// Steps `d` sites along the second lattice axis, wrapping around.
    pub fn yhop(self, d: u32) -> (r: SiteVector)
        requires
            self.wf(),
            d <= 124,
        ensures
            r == (SiteVector { y: ((self.y + d) as int % self.ny as int) as u32, ..self }),
            r.wf(),
    {
        proof {
            assert(self.ny <= 62) by (nonlinear_arith)
                requires
                    1 <= self.nx && 1 <= self.ny && self.nx * self.ny <= 62,
            ;
        }
        SiteVector { y: (self.y + d) % self.ny, ..self }
    }
}

/// A coordinate strictly inside the lattice has a bit index below `nx*ny`.
proof fn lemma_site_index_bound(x: int, y: int, nx: int, ny: int)
    requires
        1 <= nx,
        1 <= ny,
        0 <= x < nx,
        0 <= y < ny,
    ensures
        0 <= y * nx + x < nx * ny,
{
    assert(y * nx + x < nx * ny) by (nonlinear_arith)
        requires
            1 <= nx && 1 <= ny && 0 <= x < nx && 0 <= y < ny,
    ;
    assert(0 <= y * nx) by (nonlinear_arith)
        requires
            0 <= y && 1 <= nx,
    ;
}

/// The `d`-th bond direction of neighbor range `l`, in lattice coordinates.
/// A negative second component is folded to `ny - 1` by wraparound.
pub open spec fn range_disp(l: int, d: int, ny: int) -> (int, int) {
    if l == 1 {
        if d == 0 {
            (1, 0)
        } else if d == 1 {
            (0, 1)
        } else {
            (1, 1)
        }
    } else if l == 2 {
        if d == 0 {
            (1, 2)
        } else if d == 1 {
            (2, 1)
        } else {
            (1, ny - 1)
        }
    } else {
        if d == 0 {
            (2, 0)
        } else if d == 1 {
            (0, 2)
        } else {
            (2, 2)
        }
    }
}

/// The bit index of the site reached from site `t` along the `d`-th bond
/// direction of range `l`.
pub open spec fn bond_target(t: int, l: int, d: int, nx: int, ny: int) -> int {
    let x = t % nx;
    let y = t / nx;
    let dx = range_disp(l, d, ny).0;
    let dy = range_disp(l, d, ny).1;
    ((y + dy) % ny) * nx + ((x + dx) % nx)
}

/// Stepping along any bond direction of ranges 1 to 3 never returns to the
/// same site, provided both dimensions are at least 3.  (On a 1- or 2-wide
/// torus a range-2 or range-3 bond can wrap onto its own origin.)
proof fn lemma_bond_no_self(t: int, l: int, d: int, nx: int, ny: int)
    requires
        3 <= nx,
        3 <= ny,
        1 <= l <= 3,
        0 <= d < 3,
        0 <= t < nx * ny,
    ensures
        bond_target(t, l, d, nx, ny) != t,
{
    let x = t % nx;
    let y = t / nx;
    let dx = range_disp(l, d, ny).0;
    let dy = range_disp(l, d, ny).1;
    let x2 = (x + dx) % nx;
    let y2 = (y + dy) % ny;
    assert(0 <= x < nx && 0 <= y < ny && t == y * nx + x) by (nonlinear_arith)
        requires
            x == t % nx && y == t / nx && 0 <= t < nx * ny && 3 <= nx && 3 <= ny,
    ;
    assert(0 <= dx && 0 <= dy);
    assert(0 <= x2 < nx && 0 <= y2 < ny) by (nonlinear_arith)
        requires
            x2 == (x + dx) % nx && y2 == (y + dy) % ny && 0 <= x + dx && 0 <= y + dy && 3 <= nx
                && 3 <= ny,
    ;
    if y2 * nx + x2 == y * nx + x {
        assert(x2 == x && y2 == y) by (nonlinear_arith)
            requires
                y2 * nx + x2 == y * nx + x && 0 <= x < nx && 0 <= x2 < nx && 0 <= y && 0 <= y2,
        ;
        if 1 <= dx < nx {
            lemma_wrap_moves(x, dx, nx);
            assert(false);
        } else {
            assert(dx == 0 && 1 <= dy < ny);
            lemma_wrap_moves(y, dy, ny);
            assert(false);
        }
    }
}

/// Adding a step strictly between 0 and the modulus moves every wrapped
/// coordinate.
proof fn lemma_wrap_moves(x: int, d: int, m: int)
    requires
        0 <= x < m,
        1 <= d < m,
    ensures
        (x + d) % m != x,
{
    if x + d < m {
        lemma_small_mod((x + d) as nat, m as nat);
    } else {
        lemma_mod_sub_multiples_vanish(x + d, m);
        lemma_small_mod((x + d - m) as nat, m as nat);
    }
}

/// Lists every bonded site pair of the lattice, one list per neighbor
/// range: entry `k` of list `l - 1` pairs site `k / 3` with the site
/// reached along its `(k % 3)`-th range-`l` bond direction.
pub fn generate_bonds(nx: u32, ny: u32) -> (r: Vec<Vec<(SiteVector, SiteVector)>>)
    requires
        valid_dims(nx, ny),
    ensures
        r@.len() == 3,
        forall|li: int|
            0 <= li < 3 ==> (#[trigger] r@[li])@.len() == 3 * (nx * ny),
        forall|li: int, k: int|
            0 <= li < 3 && 0 <= k < 3 * (nx * ny) ==> ((#[trigger] r@[li]@[k]).0.wf()
                && r@[li]@[k].1.wf() && r@[li]@[k].0.y * nx + r@[li]@[k].0.x == k / 3
                && r@[li]@[k].1.y * nx + r@[li]@[k].1.x == bond_target(
                k / 3,
                li + 1,
                k % 3,
                nx as int,
                ny as int,
            ) && r@[li]@[k].0.nx == nx && r@[li]@[k].0.ny == ny && r@[li]@[k].1.nx == nx
                && r@[li]@[k].1.ny == ny),
{
    let n = nx * ny;
    let mut r: Vec<Vec<(SiteVector, SiteVector)>> = Vec::new();
    let mut l: u32 = 1;
    while l <= 3
        invariant
            valid_dims(nx, ny),
            n == nx * ny,
            1 <= l <= 4,
            r@.len() == l - 1,
            forall|li: int|
                0 <= li < l - 1 ==> (#[trigger] r@[li])@.len() == 3 * (nx * ny),
            forall|li: int, k: int|
                0 <= li < l - 1 && 0 <= k < 3 * (nx * ny) ==> ((#[trigger] r@[li]@[k]).0.wf()
                    && r@[li]@[k].1.wf() && r@[li]@[k].0.y * nx + r@[li]@[k].0.x == k / 3
                    && r@[li]@[k].1.y * nx + r@[li]@[k].1.x == bond_target(
                    k / 3,
                    li + 1,
                    k % 3,
                    nx as int,
                    ny as int,
                ) && r@[li]@[k].0.nx == nx && r@[li]@[k].0.ny == ny && r@[li]@[k].1.nx == nx
                && r@[li]@[k].1.ny == ny),
        decreases 4 - l,
    {
        let bonds = bonds_of_range(nx, ny, l);
        r.push(bonds);
        l = l + 1;
    }
    r
}

/// The bonded site pairs of one neighbor range, each bond once.
fn bonds_of_range(nx: u32, ny: u32, l: u32) -> (r: Vec<(SiteVector, SiteVector)>)
    requires
        valid_dims(nx, ny),
        1 <= l <= 3,
    ensures
        r@.len() == 3 * (nx * ny),
        forall|k: int|
            0 <= k < r@.len() ==> ((#[trigger] r@[k]).0.wf() && r@[k].1.wf() && r@[k].0.y * nx
                + r@[k].0.x == k / 3 && r@[k].1.y * nx + r@[k].1.x == bond_target(
                k / 3,
                l as int,
                k % 3,
                nx as int,
                ny as int,
            ) && r@[k].0.nx == nx && r@[k].0.ny == ny && r@[k].1.nx == nx && r@[k].1.ny == ny),
{
    let n = nx * ny;
    let mut r: Vec<(SiteVector, SiteVector)> = Vec::new();
    let mut t: u32 = 0;
    while t < n
        invariant
            valid_dims(nx, ny),
            n == nx * ny,
            1 <= l <= 3,
            t <= n,
            r@.len() == 3 * t,
            forall|k: int|
                0 <= k < r@.len() ==> ((#[trigger] r@[k]).0.wf() && r@[k].1.wf() && r@[k].0.y * nx
                    + r@[k].0.x == k / 3 && r@[k].1.y * nx + r@[k].1.x == bond_target(
                    k / 3,
                    l as int,
                    k % 3,
                    nx as int,
                    ny as int,
                ) && r@[k].0.nx == nx && r@[k].0.ny == ny && r@[k].1.nx == nx && r@[k].1.ny == ny),
        decreases n - t,
    {
        let x = t % nx;
        let y = t / nx;
        proof {
            assert(x < nx && y < ny && y * nx + x == t) by (nonlinear_arith)
                requires
                    x == t % nx && y == t / nx && 1 <= nx && 1 <= ny && t < nx * ny,
            ;
        }
        let v = SiteVector { x, y, nx, ny };
        let mut d: u32 = 0;
        while d < 3
            invariant
                valid_dims(nx, ny),
                n == nx * ny,
                1 <= l <= 3,
                t < n,
                v == (SiteVector { x, y, nx, ny }),
                v.wf(),
                y * nx + x == t,
                d <= 3,
                r@.len() == 3 * t + d,
                forall|k: int|
                    0 <= k < r@.len() ==> ((#[trigger] r@[k]).0.wf() && r@[k].1.wf() && r@[k].0.y
                        * nx + r@[k].0.x == k / 3 && r@[k].1.y * nx + r@[k].1.x == bond_target(
                        k / 3,
                        l as int,
                        k % 3,
                        nx as int,
                        ny as int,
                    ) && r@[k].0.nx == nx && r@[k].0.ny == ny && r@[k].1.nx == nx && r@[k].1.ny == ny),
            decreases 3 - d,
        {
            let (dx, dy): (u32, u32) = if l == 1 {
                if d == 0 {
                    (1, 0)
                } else if d == 1 {
                    (0, 1)
                } else {
                    (1, 1)
                }
            } else if l == 2 {
                if d == 0 {
                    (1, 2)
                } else if d == 1 {
                    (2, 1)
                } else {
                    (1, ny - 1)
                }
            } else {
                if d == 0 {
                    (2, 0)
                } else if d == 1 {
                    (0, 2)
                } else {
                    (2, 2)
                }
            };
            proof {
                assert(nx <= 62 && ny <= 62) by (nonlinear_arith)
                    requires
                        1 <= nx && 1 <= ny && nx * ny <= 62,
                ;
            }
            let w = v.xhop(dx).yhop(dy);
            proof {
                assert((dx as int, dy as int) == range_disp(l as int, d as int, ny as int));
                assert((3 * t + d) / 3 == t && (3 * t + d) % 3 == d) by (nonlinear_arith)
                    requires
                        d < 3 && 0 <= t,
                ;
                assert(t as int % nx as int == x && t as int / nx as int == y) by (nonlinear_arith)
                    requires
                        t == y * nx + x && 0 <= x < nx && 0 <= y,
                ;
                assert(w.y * nx + w.x == bond_target(
                    t as int,
                    l as int,
                    d as int,
                    nx as int,
                    ny as int,
                ));
            }
            r.push((v, w));
            d = d + 1;
        }
        t = t + 1;
    }
    r
}

/// Adding a step that is nonzero modulo `m` moves every wrapped coordinate.
proof fn lemma_wrap_moves_general(x: int, d: int, m: int)
    requires
        0 <= x < m,
        0 <= d,
        d % m != 0,
    ensures
        (x + d) % m != x,
{
    let dm = d % m;
    vstd::arithmetic::div_mod::lemma_mod_bound(d, m);
    vstd::arithmetic::div_mod::lemma_add_mod_noop_right(x, d, m);
    lemma_small_mod(x as nat, m as nat);
    assert((x + d) % m == (x + dm) % m);
    lemma_wrap_moves(x, dm, m);
}

/// Generates all pairs of interacting sites at neighbor range
/// `l in {1, 2, 3}`, as parallel lists of single-bit site masks: entry `k`
/// pairs site `k / 3` with the site along its `(k % 3)`-th range-`l` bond.
/// On lattices at least 3 wide in both directions no bond pairs a site with
/// itself.
pub fn interacting_sites(nx: u32, ny: u32, l: u32) -> (r: (Vec<BinaryBasis>, Vec<BinaryBasis>))
    requires
        valid_dims(nx, ny),
        1 <= l <= 3,
    ensures
        r.0@.len() == 3 * (nx * ny),
        r.1@.len() == 3 * (nx * ny),
        forall|k: int| 0 <= k < 3 * (nx * ny) ==> (#[trigger] r.0@[k]).0 == pow2((k / 3) as nat),
        forall|k: int|
            0 <= k < 3 * (nx * ny) ==> (#[trigger] r.1@[k]).0 == pow2(bond_target(k / 3, l as int,
            k % 3, nx as int, ny as int) as nat),
        3 <= nx && 3 <= ny ==> forall|k: int|
            0 <= k < 3 * (nx * ny) ==> (#[trigger] r.0@[k]).0 != (#[trigger] r.1@[k]).0,
{
    let bonds_by_range = generate_bonds(nx, ny);
    let bonds = &bonds_by_range[(l - 1) as usize];
    let mut site1: Vec<BinaryBasis> = Vec::new();
    let mut site2: Vec<BinaryBasis> = Vec::new();
    let mut k: usize = 0;
    while k < bonds.len()
        invariant
            valid_dims(nx, ny),
            1 <= l <= 3,
            bonds@.len() == 3 * (nx * ny),
            forall|k2: int|
                0 <= k2 < bonds@.len() ==> ((#[trigger] bonds@[k2]).0.wf() && bonds@[k2].1.wf()
                    && bonds@[k2].0.y * nx + bonds@[k2].0.x == k2 / 3 && bonds@[k2].1.y * nx
                    + bonds@[k2].1.x == bond_target(k2 / 3, l as int, k2 % 3, nx as int, ny as int)
                    && bonds@[k2].0.nx == nx && bonds@[k2].0.ny == ny && bonds@[k2].1.nx == nx
                    && bonds@[k2].1.ny == ny),
            k <= bonds@.len(),
            site1@.len() == k,
            site2@.len() == k,
            forall|k2: int| 0 <= k2 < k ==> (#[trigger] site1@[k2]).0 == pow2((k2 / 3) as nat),
            forall|k2: int|
                0 <= k2 < k ==> (#[trigger] site2@[k2]).0 == pow2(bond_target(k2 / 3, l as int,
                k2 % 3, nx as int, ny as int) as nat),
        decreases bonds@.len() - k,
    {
        let a = bonds[k].0;
        let b = bonds[k].1;
        let ia = a.lattice_index();
        let ib = b.lattice_index();
        proof {
            assert(ia == (k as int) / 3);
            assert(ib == bond_target((k as int) / 3, l as int, (k as int) % 3, nx as int,
                ny as int));
        }
        site1.push(BinaryBasis(pow2u64(ia)));
        site2.push(BinaryBasis(pow2u64(ib)));
        k = k + 1;
    }
    proof {
        if 3 <= nx && 3 <= ny {
            assert forall|k2: int| 0 <= k2 < 3 * (nx * ny) implies (#[trigger] site1@[k2]).0 != (
            #[trigger] site2@[k2]).0 by {
                let t = k2 / 3;
                let tgt = bond_target(t, l as int, k2 % 3, nx as int, ny as int);
                assert(0 <= t < nx * ny && 0 <= k2 % 3 < 3) by (nonlinear_arith)
                    requires
                        0 <= k2 < 3 * (nx * ny) && t == k2 / 3,
                ;
                lemma_bond_no_self(t, l as int, k2 % 3, nx as int, ny as int);
                if t < tgt {
                    lemma_pow2_strictly_increases(t as nat, tgt as nat);
                } else {
                    lemma_pow2_strictly_increases(tgt as nat, t as nat);
                }
            }
        }
    }
    (site1, site2)
}

/// The bit index of the site offset from site `t` by the stride `l`,
/// decomposed into an x-stride `l % nx` and a y-stride `l / nx` (reduced
/// modulo `ny`), with wraparound on both axes.
pub open spec fn stride_target(t: int, l: int, nx: int, ny: int) -> int {
    ((t / nx + (l / nx) % ny) % ny) * nx + ((t % nx + l % nx) % nx)
}

/// Pairs every site with the site offset from it by the fixed stride `l`:
/// all lattice translations of one relative offset, entry `t` pairing site
/// `t` with its offset partner.  Whenever the offset is not a whole number
/// of torus periods (`l % nx != 0` or `(l / nx) % ny != 0`), no site is
/// paired with itself.
pub fn all_sites(nx: u32, ny: u32, l: u32) -> (r: (Vec<BinaryBasis>, Vec<BinaryBasis>))
    requires
        valid_dims(nx, ny),
        1 <= l,
    ensures
        r.0@.len() == nx * ny,
        r.1@.len() == nx * ny,
        forall|t: int| 0 <= t < nx * ny ==> (#[trigger] r.0@[t]).0 == pow2(t as nat),
        forall|t: int|
            0 <= t < nx * ny ==> (#[trigger] r.1@[t]).0 == pow2(stride_target(t, l as int,
            nx as int, ny as int) as nat),
        l % nx != 0 || (l / nx) % ny != 0 ==> forall|t: int|
            0 <= t < nx * ny ==> (#[trigger] r.0@[t]).0 != (#[trigger] r.1@[t]).0,
{
    let n = nx * ny;
    let xstride = l % nx;
    let ystride = (l / nx) % ny;
    let mut site1: Vec<BinaryBasis> = Vec::new();
    let mut site2: Vec<BinaryBasis> = Vec::new();
    let mut t: u32 = 0;
    while t < n
        invariant
            valid_dims(nx, ny),
            n == nx * ny,
            xstride == l % nx,
            ystride == (l / nx) % ny,
            t <= n,
            site1@.len() == t,
            site2@.len() == t,
            forall|t2: int| 0 <= t2 < t ==> (#[trigger] site1@[t2]).0 == pow2(t2 as nat),
            forall|t2: int|
                0 <= t2 < t ==> (#[trigger] site2@[t2]).0 == pow2(stride_target(t2, l as int,
                nx as int, ny as int) as nat),
        decreases n - t,
    {
        let x = t % nx;
        let y = t / nx;
        proof {
            assert(x < nx && y < ny && y * nx + x == t && nx <= 62 && ny <= 62) by (nonlinear_arith)
                requires
                    x == t % nx && y == t / nx && 1 <= nx && 1 <= ny && t < nx * ny && nx * ny
                        <= 62,
            ;
        }
        let v = SiteVector { x, y, nx, ny };
        let w = v.xhop(xstride).yhop(ystride);
        let iv = v.lattice_index();
        let iw = w.lattice_index();
        proof {
            assert(iv == t);
            assert(iw == stride_target(t as int, l as int, nx as int, ny as int));
        }
        site1.push(BinaryBasis(pow2u64(iv)));
        site2.push(BinaryBasis(pow2u64(iw)));
        t = t + 1;
    }
    proof {
        if l % nx != 0 || (l / nx) % ny != 0 {
            assert forall|t2: int| 0 <= t2 < nx * ny implies (#[trigger] site1@[t2]).0 != (
            #[trigger] site2@[t2]).0 by {
                let x = t2 % (nx as int);
                let y = t2 / (nx as int);
                let tgt = stride_target(t2, l as int, nx as int, ny as int);
                assert(0 <= x < nx && 0 <= y < ny && t2 == y * nx + x) by (nonlinear_arith)
                    requires
                        x == t2 % (nx as int) && y == t2 / (nx as int) && 0 <= t2 < nx * ny && 1
                            <= nx && 1 <= ny,
                ;
                let x2 = (x + l % nx) % (nx as int);
                let y2 = (y + (l as int / nx as int) % (ny as int)) % (ny as int);
                assert(0 <= x2 < nx && 0 <= y2 < ny);
                if l % nx != 0 {
                    lemma_wrap_moves(x, l as int % nx as int, nx as int);
                } else {
                    lemma_small_mod(x as nat, nx as nat);
                    lemma_wrap_moves(y, (l as int / nx as int) % ny as int, ny as int);
                }
                if tgt != t2 {
                    if t2 < tgt {
                        lemma_pow2_strictly_increases(t2 as nat, tgt as nat);
                    } else {
                        lemma_pow2_strictly_increases(tgt as nat, t2 as nat);
                    }
                } else {
                    assert(x2 == x && y2 == y) by (nonlinear_arith)
                        requires
                            y2 * nx + x2 == y * nx + x && 0 <= x < nx && 0 <= x2 < nx && 0 <= y && 0
                                <= y2,
                    ;
                    assert(false);
                }
            }
        }
    }
    (site1, site2)
}

/// The bit index of the right-hand neighbor of site `t` within its row.
pub open spec fn tri_second(t: int, nx: int) -> int {
    (t / nx) * nx + (t % nx + 1) % nx
}

/// The bit index of the third triangle vertex over site `t`: the right-hand
/// neighbor's partner one row up (upright triangle) or one row down
/// (inverted triangle).
pub open spec fn tri_third(t: int, nx: int, ny: int, up: bool) -> int {
    ((t / nx + if up {
        1int
    } else {
        ny - 1
    }) % ny) * nx + (t % nx + 1) % nx
}

/// Lists the vertices of every elementary upright and inverted triangular
/// plaquette as three parallel site-mask lists in a fixed clockwise
/// orientation: entries `2t` and `2t + 1` hold the upright and inverted
/// triangle anchored at site `t`.
pub fn triangular_vert_sites(nx: u32, ny: u32) -> (r: (
    Vec<BinaryBasis>,
    Vec<BinaryBasis>,
    Vec<BinaryBasis>,
))
    requires
        valid_dims(nx, ny),
    ensures
        r.0@.len() == 2 * (nx * ny),
        r.1@.len() == 2 * (nx * ny),
        r.2@.len() == 2 * (nx * ny),
        forall|k: int| 0 <= k < 2 * (nx * ny) ==> (#[trigger] r.0@[k]).0 == pow2((k / 2) as nat),
        forall|k: int|
            0 <= k < 2 * (nx * ny) ==> (#[trigger] r.1@[k]).0 == pow2(tri_second(k / 2,
            nx as int) as nat),
        forall|k: int|
            0 <= k < 2 * (nx * ny) ==> (#[trigger] r.2@[k]).0 == pow2(tri_third(k / 2, nx as int,
            ny as int, k % 2 == 0) as nat),
{
    let n = nx * ny;
    let mut site1: Vec<BinaryBasis> = Vec::new();
    let mut site2: Vec<BinaryBasis> = Vec::new();
    let mut site3: Vec<BinaryBasis> = Vec::new();
    let mut t: u32 = 0;
    while t < n
        invariant
            valid_dims(nx, ny),
            n == nx * ny,
            t <= n,
            site1@.len() == 2 * t,
            site2@.len() == 2 * t,
            site3@.len() == 2 * t,
            forall|k: int| 0 <= k < 2 * t ==> (#[trigger] site1@[k]).0 == pow2((k / 2) as nat),
            forall|k: int|
                0 <= k < 2 * t ==> (#[trigger] site2@[k]).0 == pow2(tri_second(k / 2,
                nx as int) as nat),
            forall|k: int|
                0 <= k < 2 * t ==> (#[trigger] site3@[k]).0 == pow2(tri_third(k / 2, nx as int,
                ny as int, k % 2 == 0) as nat),
        decreases n - t,
    {
        let x = t % nx;
        let y = t / nx;
        proof {
            assert(x < nx && y < ny && y * nx + x == t && nx <= 62 && ny <= 62) by (nonlinear_arith)
                requires
                    x == t % nx && y == t / nx && 1 <= nx && 1 <= ny && t < nx * ny && nx * ny
                        <= 62,
            ;
        }
        let v = SiteVector { x, y, nx, ny };
        let s1 = v.lattice_index();
        let s2 = v.xhop(1).lattice_index();
        let s3 = v.xhop(1).yhop(1).lattice_index();
        let s6 = v.xhop(1).yhop(ny - 1).lattice_index();
        proof {
            assert(s1 == t);
            assert(s2 == tri_second(t as int, nx as int));
            assert(s3 == tri_third(t as int, nx as int, ny as int, true));
            assert(s6 == tri_third(t as int, nx as int, ny as int, false));
            assert((2 * t) / 2 == t && (2 * t) % 2 == 0 && (2 * t + 1) / 2 == t && (2 * t + 1) % 2
                == 1) by (nonlinear_arith)
                requires
                    0 <= t,
            ;
        }
        site1.push(BinaryBasis(pow2u64(s1)));
        site2.push(BinaryBasis(pow2u64(s2)));
        site3.push(BinaryBasis(pow2u64(s3)));
        site1.push(BinaryBasis(pow2u64(s1)));
        site2.push(BinaryBasis(pow2u64(s2)));
        site3.push(BinaryBasis(pow2u64(s6)));
        t = t + 1;
    }
    (site1, site2, site3)
}

} // verus!
