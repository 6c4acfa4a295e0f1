//! The binary-basis representation: one spin configuration per bitmask, and
//! the translation-group action on it (cyclic shifts along both lattice axes).
//!
//! A configuration on an `nx` by `ny` torus uses bits `0 .. nx*ny`; bit
//! `y*nx + x` is the spin at column `x` of row `y`.  Rows are windows of
//! `nx` consecutive bits, so both translations are plain arithmetic on the
//! underlying integer.

use vstd::prelude::*;
use vstd::arithmetic::power2::*;
use vstd::arithmetic::div_mod::*;
use vstd::arithmetic::mul::*;
use vstd::bits::*;

verus! {

/// One spin configuration: bit `i` encodes the spin (up/down) of lattice
/// site `i`.  Only bits `0 .. nx*ny` are meaningful.
#[derive(Clone, Copy, Debug, PartialEq, Eq, Structural, Hash)]
pub struct BinaryBasis(pub u64);

impl BinaryBasis {
    /// The raw integer value of the configuration.
    pub fn as_u64(self) -> (r: u64)
        ensures
            r == self.0,
    {
        self.0
    }
}

/// Valid lattice dimensions: both positive, and few enough sites that every
/// configuration fits in the 62 usable bits of a `u64`.
pub open spec fn valid_dims(nx: u32, ny: u32) -> bool {
    1 <= nx && 1 <= ny && nx * ny <= 62
}

/// A configuration is in range when it only uses the `n` low bits.
pub open spec fn in_range(dec: nat, n: nat) -> bool {
    dec < pow2(n)
}

/// 2^e, as an executable `u64`.
pub fn pow2u64(e: u32) -> (r: u64)
    requires
        e < 64,
    ensures
        r == pow2(e as nat),
{
    proof {
        lemma_u64_pow2_no_overflow(e as nat);
        lemma_u64_shl_is_mul(1u64, e as u64);
    }
    1u64 << e
}

/// Translation of a whole configuration one row upward (cyclically): the
/// bottom row moves to the top and every other row shifts down by `nx` bits.
pub open spec fn ty_spec(dec: nat, nx: nat, ny: nat) -> nat {
    dec / pow2(nx) + (dec % pow2(nx)) * pow2(nx * (ny - 1) as nat)
}

/// Cyclically rotates whole rows: the bottom row (least-significant `nx`
/// bits) is moved to the top, all other rows shift down by `nx` bits.
pub fn translate_y(dec: BinaryBasis, nx: u32, ny: u32) -> (r: BinaryBasis)
    requires
        valid_dims(nx, ny),
        in_range(dec.0 as nat, (nx * ny) as nat),
    ensures
        r.0 == ty_spec(dec.0 as nat, nx as nat, ny as nat),
        in_range(r.0 as nat, (nx * ny) as nat),
{
    proof {
        assert(nx <= 62 && nx * (ny - 1) <= 62) by (nonlinear_arith)
            requires
                1 <= nx && 1 <= ny && nx * ny <= 62,
        ;
        lemma_ty_bounds(dec.0 as nat, nx as nat, ny as nat);
    }
    let xdim = pow2u64(nx);
    let pred_totdim = pow2u64(nx * (ny - 1));
    proof {
        lemma_pow2_pos(nx as nat);
        lemma_u64_pow2_no_overflow((nx * ny) as nat);
        assert(nx * (ny - 1) < nx * ny) by (nonlinear_arith)
            requires
                1 <= nx && 1 <= ny,
        ;
    }
    let tail = dec.0 % xdim;
    BinaryBasis(dec.0 / xdim + tail * pred_totdim)
}

/// The row-rotation arithmetic stays inside the `n`-bit window.
pub proof fn lemma_ty_bounds(dec: nat, nx: nat, ny: nat)
    requires
        1 <= nx,
        1 <= ny,
        nx * ny <= 62,
        dec < pow2((nx * ny) as nat),
    ensures
        nx * (ny - 1) as nat == (nx * ny - nx) as nat,
        dec / pow2(nx) < pow2((nx * ny - nx) as nat),
        (dec % pow2(nx)) * pow2((nx * ny - nx) as nat) <= (pow2(nx) - 1) * pow2(
            (nx * ny - nx) as nat,
        ),
        ty_spec(dec, nx, ny) < pow2((nx * ny) as nat),
{
    let n = (nx * ny) as nat;
    let rest = (n - nx) as nat;
    assert(nx * (ny - 1) == nx * ny - nx) by (nonlinear_arith)
        requires
            1 <= ny,
    ;
    lemma_pow2_pos(nx);
    lemma_pow2_pos(rest);
    lemma_pow2_adds(nx, rest);
    // dec / 2^nx < 2^rest because dec < 2^nx * 2^rest.
    lemma_multiply_divide_lt(dec as int, pow2(nx) as int, pow2(rest) as int);
    // tail * 2^rest is at most (2^nx - 1) * 2^rest.
    lemma_mod_division_less_than_divisor(dec as int, pow2(nx) as int);
    lemma_mul_inequality((dec % pow2(nx)) as int, pow2(nx) as int - 1, pow2(rest) as int);
    assert((pow2(nx) - 1) * pow2(rest) == pow2(nx) * pow2(rest) - pow2(rest)) by (nonlinear_arith);
}

/// One row of `nx` bits rotated one position upward within the row: the low
/// `nx - 1` bits shift up by one and the top bit wraps to the bottom.
pub open spec fn tx_row(row: nat, nx: nat) -> nat {
    (row * 2) % pow2(nx) + row / pow2((nx - 1) as nat)
}

/// Translation of a whole configuration one column to the right: every row of
/// `nx` bits is rotated independently by [`tx_row`], bottom row first.
pub open spec fn tx_spec(dec: nat, nx: nat, ny: nat) -> nat
    decreases ny,
{
    if ny == 0 {
        0
    } else {
        tx_row(dec % pow2(nx), nx) + pow2(nx) * tx_spec(dec / pow2(nx), nx, (ny - 1) as nat)
    }
}

/// A rotated row is the low bits doubled plus the wrapped top bit, and stays
/// inside its `nx`-bit window.
pub proof fn lemma_tx_row(row: nat, nx: nat)
    requires
        1 <= nx,
        row < pow2(nx),
    ensures
        tx_row(row, nx) == 2 * (row % pow2((nx - 1) as nat)) + row / pow2((nx - 1) as nat),
        row / pow2((nx - 1) as nat) <= 1,
        tx_row(row, nx) < pow2(nx),
{
    let m = (nx - 1) as nat;
    let h = row / pow2(m);
    let l = row % pow2(m);
    lemma_pow2_pos(m);
    lemma_pow2_adds(m, 1);
    lemma2_to64();
    assert(pow2(nx) == pow2(m) * 2);
    lemma_fundamental_div_mod(row as int, pow2(m) as int);
    lemma_mod_division_less_than_divisor(row as int, pow2(m) as int);
    lemma_multiply_divide_lt(row as int, pow2(m) as int, 2);
    assert(row * 2 == pow2(nx) * h + 2 * l) by (nonlinear_arith)
        requires
            row == pow2(m) * h + l && pow2(nx) == pow2(m) * 2,
    ;
    lemma_mod_multiples_vanish(h as int, 2 * l as int, pow2(nx) as int);
    lemma_small_mod((2 * l) as nat, pow2(nx));
}

/// Row-wise rotation keeps a configuration inside its `nx * ny` bit window.
pub proof fn lemma_tx_spec_bound(dec: nat, nx: nat, ny: nat)
    requires
        1 <= nx,
        dec < pow2(nx * ny),
    ensures
        tx_spec(dec, nx, ny) < pow2(nx * ny),
    decreases ny,
{
    if ny == 0 {
        lemma_pow2_pos(0);
    } else {
        let x = pow2(nx);
        let rest = (nx * (ny - 1)) as nat;
        assert(nx * ny == nx + nx * (ny - 1)) by (nonlinear_arith)
            requires
                1 <= ny,
        ;
        lemma_pow2_adds(nx, rest);
        lemma_pow2_pos(nx);
        lemma_pow2_pos(rest);
        lemma_mod_division_less_than_divisor(dec as int, x as int);
        lemma_tx_row(dec % x, nx);
        lemma_multiply_divide_lt(dec as int, x as int, pow2(rest) as int);
        lemma_tx_spec_bound(dec / x, nx, (ny - 1) as nat);
        assert(tx_row(dec % x, nx) + x * tx_spec(dec / x, nx, (ny - 1) as nat) < x * pow2(rest))
            by (nonlinear_arith)
            requires
                tx_row(dec % x, nx) < x && tx_spec(dec / x, nx, (ny - 1) as nat) < pow2(rest) && 0
                    < x && 0 < pow2(rest),
        ;
    }
}

/// Cyclically rotates each row of `nx` bits one position to the right within
/// its row, independently for every row.
pub fn translate_x(dec: BinaryBasis, nx: u32, ny: u32) -> (r: BinaryBasis)
    requires
        valid_dims(nx, ny),
        in_range(dec.0 as nat, (nx * ny) as nat),
    ensures
        r.0 == tx_spec(dec.0 as nat, nx as nat, ny as nat),
        in_range(r.0 as nat, (nx * ny) as nat),
{
    proof {
        assert(nx <= 62 && ny <= 62) by (nonlinear_arith)
            requires
                1 <= nx && 1 <= ny && nx * ny <= 62,
        ;
        lemma2_to64();
        lemma2_to64_rest();
        if nx < 62 {
            lemma_pow2_strictly_increases(nx as nat, 62);
        }
    }
    let xdim = pow2u64(nx);
    let half = pow2u64(nx - 1);
    let mut acc: u64 = 0;
    let mut rest: u64 = dec.0;
    let mut y: u32 = 0;
    proof {
        lemma_pow2_pos(0);
        lemma_div_basics_2(dec.0 as int);
    }
    while y < ny
        invariant
            valid_dims(nx, ny),
            y <= ny,
            xdim == pow2(nx as nat),
            xdim <= pow2(62),
            pow2(62) < u64::MAX,
            half == pow2((nx - 1) as nat),
            rest == dec.0 as nat / pow2((nx * y) as nat),
            rest < pow2((nx * (ny - y)) as nat),
            acc < pow2((nx * y) as nat),
            acc + pow2((nx * y) as nat) * tx_spec(rest as nat, nx as nat, (ny - y) as nat)
                == tx_spec(dec.0 as nat, nx as nat, ny as nat),
            in_range(dec.0 as nat, (nx * ny) as nat),
        decreases ny - y,
    {
        proof {
            lemma2_to64();
            lemma2_to64_rest();
            assert(nx * y + nx <= nx * ny && nx * (ny - y) == nx * ((ny - y - 1) as u32) + nx && nx
                * (y + 1) == nx * y + nx) by (nonlinear_arith)
                requires
                    1 <= nx && 1 <= ny && y < ny,
            ;
            lemma_pow2_pos(nx as nat);
            lemma_pow2_pos((nx * y) as nat);
            lemma_mod_division_less_than_divisor(rest as int, xdim as int);
            lemma_tx_row((rest % xdim) as nat, nx as nat);
        }
        let row = rest % xdim;
        let rot = (row * 2) % xdim + row / half;
        let sh = pow2u64(nx * y);
        proof {
            lemma_pow2_adds((nx * y) as nat, nx as nat);
            if nx * y + nx < 62 {
                lemma_pow2_strictly_increases((nx * y + nx) as nat, 62);
            }
            assert(rot * sh <= (xdim - 1) * sh && acc + rot * sh < pow2((nx * y + nx) as nat))
                by (nonlinear_arith)
                requires
                    rot < xdim && 0 < sh && acc < sh && pow2((nx * y + nx) as nat) == sh * xdim,
            ;
        }
        acc = acc + rot * sh;
        proof {
            lemma_pow2_pos((nx * ((ny - y - 1) as u32)) as nat);
            lemma_pow2_adds(nx as nat, (nx * ((ny - y - 1) as u32)) as nat);
            lemma_multiply_divide_lt(rest as int, xdim as int, pow2(
                (nx * ((ny - y - 1) as u32)) as nat,
            ) as int);
            lemma_div_denominator(dec.0 as int, pow2((nx * y) as nat) as int, xdim as int);
            // unfold tx_spec(rest, nx, ny - y) one step and redistribute the
            // row's weight into the accumulator
            assert(acc + rot * sh + pow2((nx * (y + 1)) as nat) * tx_spec(
                (rest / xdim) as nat,
                nx as nat,
                (ny - y - 1) as nat,
            ) == acc + pow2((nx * y) as nat) * tx_spec(rest as nat, nx as nat, (ny - y) as nat))
                by (nonlinear_arith)
                requires
                    rot == tx_row(rest as nat % pow2(nx as nat), nx as nat) && sh == pow2(
                        (nx * y) as nat,
                    ) && xdim == pow2(nx as nat) && pow2((nx * (y + 1)) as nat) == sh * xdim
                        && ny - y >= 1 && tx_spec(rest as nat, nx as nat, (ny - y) as nat) == tx_row(
                        rest as nat % pow2(nx as nat),
                        nx as nat,
                    ) + pow2(nx as nat) * tx_spec(
                        (rest / xdim) as nat,
                        nx as nat,
                        (ny - y - 1) as nat,
                    ),
            ;
        }
        rest = rest / xdim;
        y = y + 1;
    }
    proof {
        assert(tx_spec(rest as nat, nx as nat, (ny - y) as nat) == 0);
        assert(acc == tx_spec(dec.0 as nat, nx as nat, ny as nat));
        lemma_tx_spec_bound(dec.0 as nat, nx as nat, ny as nat);
        assert(nx as nat * ny as nat == (nx * ny) as nat);
    }
    BinaryBasis(acc)
}

/// The inverse row rotation: one position downward within the row, the
/// bottom bit wrapping to the top.
pub open spec fn tx_row_inv(row: nat, nx: nat) -> nat {
    row / 2 + (row % 2) * pow2((nx - 1) as nat)
}

/// The inverse of the whole-configuration column translation: every row
/// rotated one position downward.
pub open spec fn tx_inv_spec(dec: nat, nx: nat, ny: nat) -> nat
    decreases ny,
{
    if ny == 0 {
        0
    } else {
        tx_row_inv(dec % pow2(nx), nx) + pow2(nx) * tx_inv_spec(dec / pow2(nx), nx, (ny - 1) as nat)
    }
}

/// Rotating one row up and then down returns the row.
proof fn lemma_tx_row_roundtrip(row: nat, nx: nat)
    requires
        1 <= nx,
        row < pow2(nx),
    ensures
        tx_row_inv(tx_row(row, nx), nx) == row,
{
    let m = (nx - 1) as nat;
    let h = row / pow2(m);
    let l = row % pow2(m);
    lemma_tx_row(row, nx);
    lemma_pow2_pos(m);
    lemma_fundamental_div_mod(row as int, pow2(m) as int);
    lemma_mod_division_less_than_divisor(row as int, pow2(m) as int);
    // tx_row(row) == 2*l + h with h <= 1, so dividing by 2 recovers l and h
    assert((2 * l + h) / 2 == l && (2 * l + h) % 2 == h) by (nonlinear_arith)
        requires
            0 <= l && 0 <= h <= 1,
    ;
}

/// Rotating every row one position up and then one position down returns
/// the configuration: the column translation loses no information.
pub proof fn lemma_tx_roundtrip(dec: nat, nx: nat, ny: nat)
    requires
        1 <= nx,
        dec < pow2(nx * ny),
    ensures
        tx_inv_spec(tx_spec(dec, nx, ny), nx, ny) == dec,
    decreases ny,
{
    if ny == 0 {
        lemma2_to64();
        assert(nx * ny == 0) by (nonlinear_arith)
            requires
                ny == 0,
        ;
        assert(dec == 0);
    } else {
        let x = pow2(nx);
        let rest = (nx * (ny - 1)) as nat;
        assert(nx * ny == nx + nx * (ny - 1)) by (nonlinear_arith)
            requires
                1 <= ny,
        ;
        lemma_pow2_adds(nx, rest);
        lemma_pow2_pos(nx);
        lemma_pow2_pos(rest);
        lemma_mod_division_less_than_divisor(dec as int, x as int);
        lemma_multiply_divide_lt(dec as int, x as int, pow2(rest) as int);
        lemma_tx_row((dec % x), nx);
        lemma_tx_spec_bound(dec / x, nx, (ny - 1) as nat);
        let t = tx_row(dec % x, nx);
        let r = tx_spec(dec / x, nx, (ny - 1) as nat);
        let e = tx_spec(dec, nx, ny);
        assert(e == t + x * r);
        // the low nx bits of the rotated word are the rotated bottom row
        lemma_mod_multiples_vanish(r as int, t as int, x as int);
        lemma_small_mod(t, x);
        assert(e % x == t);
        assert(e / x == r) by (nonlinear_arith)
            requires
                e == t + x * r && 0 <= t < x && 0 < x && 0 <= r,
        ;
        lemma_tx_row_roundtrip((dec % x), nx);
        lemma_tx_roundtrip(dec / x, nx, (ny - 1) as nat);
        lemma_fundamental_div_mod(dec as int, x as int);
    }
}

/// The column translation is a bijection of the `nx * ny`-bit configuration
/// space: two configurations with the same image are equal.  Together with
/// [`lemma_tx_spec_bound`] this makes `translate_x` a permutation of the
/// space.
pub proof fn lemma_translate_x_injective(d1: nat, d2: nat, nx: nat, ny: nat)
    requires
        1 <= nx,
        d1 < pow2(nx * ny),
        d2 < pow2(nx * ny),
        tx_spec(d1, nx, ny) == tx_spec(d2, nx, ny),
    ensures
        d1 == d2,
{
    lemma_tx_roundtrip(d1, nx, ny);
    lemma_tx_roundtrip(d2, nx, ny);
}

/// The inverse row translation: the top row moves back to the bottom.
pub open spec fn ty_inv_spec(dec: nat, nx: nat, ny: nat) -> nat {
    (dec % pow2(nx * (ny - 1) as nat)) * pow2(nx) + dec / pow2(nx * (ny - 1) as nat)
}

/// Rotating the rows up and then down returns the configuration: the row
/// translation loses no information.
pub proof fn lemma_ty_roundtrip(dec: nat, nx: nat, ny: nat)
    requires
        1 <= nx,
        1 <= ny,
        nx * ny <= 62,
        dec < pow2((nx * ny) as nat),
    ensures
        ty_inv_spec(ty_spec(dec, nx, ny), nx, ny) == dec,
{
    let rest = (nx * (ny - 1)) as nat;
    assert(nx * ny == nx + nx * (ny - 1)) by (nonlinear_arith)
        requires
            1 <= ny,
    ;
    lemma_pow2_adds(nx, rest);
    lemma_pow2_pos(nx);
    lemma_pow2_pos(rest);
    let q = dec / pow2(nx);
    let t = dec % pow2(nx);
    lemma_mod_division_less_than_divisor(dec as int, pow2(nx) as int);
    lemma_multiply_divide_lt(dec as int, pow2(nx) as int, pow2(rest) as int);
    let e = ty_spec(dec, nx, ny);
    assert(e == q + t * pow2(rest));
    lemma_mod_multiples_vanish(t as int, q as int, pow2(rest) as int);
    lemma_small_mod(q, pow2(rest));
    assert((pow2(rest) * t as int + q as int) == e);
    assert(e % pow2(rest) == q);
    assert(e / pow2(rest) == t) by (nonlinear_arith)
        requires
            e == q + t * pow2(rest) && 0 <= q < pow2(rest) && 0 < pow2(rest) && 0 <= t,
    ;
    lemma_fundamental_div_mod(dec as int, pow2(nx) as int);
}

/// The row translation is a bijection of the configuration space: two
/// configurations with the same image are equal.
pub proof fn lemma_translate_y_injective(d1: nat, d2: nat, nx: nat, ny: nat)
    requires
        1 <= nx,
        1 <= ny,
        nx * ny <= 62,
        d1 < pow2((nx * ny) as nat),
        d2 < pow2((nx * ny) as nat),
        ty_spec(d1, nx, ny) == ty_spec(d2, nx, ny),
    ensures
        d1 == d2,
{
    lemma_ty_roundtrip(d1, nx, ny);
    lemma_ty_roundtrip(d2, nx, ny);
}

/// The row translation applied `k` times.
pub open spec fn iter_ty(dec: nat, nx: nat, ny: nat, k: nat) -> nat
    decreases k,
{
    if k == 0 {
        dec
    } else {
        ty_spec(iter_ty(dec, nx, ny, (k - 1) as nat), nx, ny)
    }
}

/// After `k` row translations the configuration is rotated downward by
/// `k` whole rows: the low `nx*k` bits have moved to the top.
proof fn lemma_iter_ty_form(dec: nat, nx: nat, ny: nat, k: nat)
    requires
        1 <= nx,
        1 <= ny,
        nx * ny <= 62,
        dec < pow2((nx * ny) as nat),
        k <= ny,
    ensures
        iter_ty(dec, nx, ny, k) == dec / pow2((nx * k) as nat) + (dec % pow2((nx * k) as nat))
            * pow2((nx * ny - nx * k) as nat),
    decreases k,
{
    let n = (nx * ny) as nat;
    if k == 0 {
        lemma2_to64();
        assert(nx * k == 0) by (nonlinear_arith)
            requires
                k == 0,
        ;
        lemma_div_basics_2(dec as int);
        assert(dec as int % 1 == 0) by (nonlinear_arith);
        assert(pow2((nx * k) as nat) == 1);
        assert(dec / pow2((nx * k) as nat) == dec && dec % pow2((nx * k) as nat) == 0);
        assert(iter_ty(dec, nx, ny, k) == dec / pow2((nx * k) as nat) + (dec % pow2(
            (nx * k) as nat,
        )) * pow2((nx * ny - nx * k) as nat));
    } else {
        lemma_iter_ty_form(dec, nx, ny, (k - 1) as nat);
        let kp = (k - 1) as nat;
        let x = pow2(nx);
        let pk = (nx * kp) as nat;
        let pk1 = (nx * k) as nat;
        assert(pk1 == pk + nx && pk1 <= nx * ny && nx * ny - pk == (nx * ny - pk1) + nx)
            by (nonlinear_arith)
            requires
                k >= 1 && kp == k - 1 && pk == nx * kp && pk1 == nx * k && k <= ny && 1 <= nx,
        ;
        let a = dec / pow2(pk);
        let b = dec % pow2(pk);
        let c = b * pow2((n - pk1) as nat);
        let v = iter_ty(dec, nx, ny, kp);
        lemma_pow2_pos(pk);
        lemma_pow2_pos(pk1);
        lemma_pow2_pos(nx);
        lemma_pow2_pos((n - pk) as nat);
        lemma_pow2_pos((n - pk1) as nat);
        lemma_pow2_adds(pk, nx);
        lemma_pow2_adds((n - pk1) as nat, nx);
        lemma_pow2_adds(pk, (n - pk) as nat);
        lemma_mod_division_less_than_divisor(dec as int, pow2(pk) as int);
        lemma_multiply_divide_lt(dec as int, pow2(pk) as int, pow2((n - pk) as nat) as int);
        // v == a + x * c, so its bottom row is a's bottom row
        assert(v == a + b * pow2((n - pk) as nat));
        assert(b * pow2((n - pk) as nat) == x * c && v < pow2(n)) by (nonlinear_arith)
            requires
                v == a + b * pow2((n - pk) as nat) && c == b * pow2((n - pk1) as nat) && pow2(
                    (n - pk) as nat,
                ) == pow2((n - pk1) as nat) * x && b < pow2(pk) && a < pow2((n - pk) as nat)
                    && pow2(n) == pow2(pk) * pow2((n - pk) as nat) && 0 <= b && 0 < x && 0 < pow2(
                    (n - pk1) as nat,
                ),
        ;
        lemma_mod_multiples_vanish(c as int, a as int, x as int);
        lemma_hoist_over_denominator(a as int, c as int, nx as nat);
        assert(x == pow2(nx));
        assert((a + x * c) % x == a % x);
        assert((a + c * x) / x == a / x + c) by {
            lemma_hoist_over_denominator(a as int, c as int, x as nat);
        }
        assert(v % x == a % x && v / x == a / x + c) by (nonlinear_arith)
            requires
                v == a + x * c && (a + x * c) % x == a % x && (a + c * x) / x == a / x + c,
        ;
        // reassemble against the direct formula for k rotations
        assert(nx * (ny - 1) == nx * ny - nx) by (nonlinear_arith)
            requires
                1 <= ny,
        ;
        lemma_pow2_adds(pk, (n - pk1) as nat);
        lemma_div_denominator(dec as int, pow2(pk) as int, x as int);
        lemma_breakdown(dec as int, pow2(pk) as int, x as int);
        assert(iter_ty(dec, nx, ny, k) == ty_spec(v, nx, ny));
        assert(ty_spec(v, nx, ny) == v / x + (v % x) * pow2((n - nx) as nat));
        assert(a / x == dec / pow2(pk1));
        assert(dec % pow2(pk1) == pow2(pk) * (a % x) + b);
        let w = (a % x) as int;
        let p1 = pow2((n - pk1) as nat) as int;
        let ppk = pow2(pk) as int;
        assert((ppk * w + b) * p1 == w * (ppk * p1) + b * p1) by (nonlinear_arith);
        assert((pow2(pk) * (a % x) + b) * pow2((n - pk1) as nat) == (a % x) * pow2((n - nx) as nat)
            + c);
        assert(iter_ty(dec, nx, ny, k) == v / x + (v % x) * pow2((n - nx) as nat));
        assert(v / x + (v % x) * pow2((n - nx) as nat) == a / x + c + (a % x) * pow2(
            (n - nx) as nat,
        ));
        assert(iter_ty(dec, nx, ny, k) == dec / pow2(pk1) + (dec % pow2(pk1)) * pow2(
            (n - pk1) as nat,
        ));
        assert(pk1 == (nx * k) as nat && (n - pk1) as nat == (nx * ny - nx * k) as nat);
    }
}

/// Applying the row translation `ny` times returns every configuration to
/// itself: together with [`lemma_translate_y_injective`] this is the
/// statement that the row translation generates a cyclic group of order
/// dividing `ny` on the configuration space.
pub proof fn lemma_translate_y_order(dec: nat, nx: nat, ny: nat)
    requires
        1 <= nx,
        1 <= ny,
        nx * ny <= 62,
        dec < pow2((nx * ny) as nat),
    ensures
        iter_ty(dec, nx, ny, ny) == dec,
{
    lemma_iter_ty_form(dec, nx, ny, ny);
    lemma2_to64();
    lemma_small_mod(dec, pow2((nx * ny) as nat));
    lemma_basic_div_specific_divisor(pow2((nx * ny) as nat) as int);
    assert(dec / pow2((nx * ny) as nat) == 0) by {
        lemma_pow2_pos((nx * ny) as nat);
        lemma_small_div_converse(dec as int, pow2((nx * ny) as nat) as int);
    }
}

/// The row rotation applied `k` times to one row of `nx` bits.
pub open spec fn iter_tx_row(row: nat, nx: nat, k: nat) -> nat
    decreases k,
{
    if k == 0 {
        row
    } else {
        tx_row(iter_tx_row(row, nx, (k - 1) as nat), nx)
    }
}

/// The column translation applied `k` times.
pub open spec fn iter_tx(dec: nat, nx: nat, ny: nat, k: nat) -> nat
    decreases k,
{
    if k == 0 {
        dec
    } else {
        tx_spec(iter_tx(dec, nx, ny, (k - 1) as nat), nx, ny)
    }
}

/// The single-row rotation is exactly the one-row form of the row
/// translation's inverse, and the one-row row translation undoes it.
proof fn lemma_tx_row_is_row_rot(row: nat, nx: nat)
    requires
        1 <= nx <= 62,
        row < pow2(nx),
    ensures
        tx_row(row, nx) == ty_inv_spec(row, 1, nx),
        ty_spec(tx_row(row, nx), 1, nx) == row,
        tx_row(row, nx) < pow2(nx),
{
    lemma_tx_row(row, nx);
    assert(1 * ((nx - 1) as int) == nx - 1) by (nonlinear_arith);
    lemma2_to64();
    assert(ty_inv_spec(row, 1, nx) == (row % pow2((nx - 1) as nat)) * 2 + row / pow2(
        (nx - 1) as nat,
    ));
    let t = tx_row(row, nx);
    let l = row % pow2((nx - 1) as nat);
    let h = row / pow2((nx - 1) as nat);
    lemma_pow2_pos((nx - 1) as nat);
    lemma_pow2_adds((nx - 1) as nat, 1);
    lemma_mod_division_less_than_divisor(row as int, pow2((nx - 1) as nat) as int);
    lemma_multiply_divide_lt(row as int, pow2((nx - 1) as nat) as int, 2);
    assert(t == 2 * l + h && h <= 1);
    assert((2 * l + h) / 2 == l && (2 * l + h) % 2 == h) by (nonlinear_arith)
        requires
            0 <= l && 0 <= h <= 1,
    ;
    lemma_fundamental_div_mod(row as int, pow2((nx - 1) as nat) as int);
    assert(ty_spec(t, 1, nx) == t / 2 + (t % 2) * pow2((nx - 1) as nat));
}

/// Iterating shifts through the first application: applying the rotation
/// `k` times is applying it once and then `k - 1` more times.
proof fn lemma_iter_tx_row_shift(row: nat, nx: nat, k: nat)
    requires
        1 <= k,
    ensures
        iter_tx_row(row, nx, k) == iter_tx_row(tx_row(row, nx), nx, (k - 1) as nat),
    decreases k,
{
    if k == 1 {
        assert(iter_tx_row(row, nx, 1) == tx_row(iter_tx_row(row, nx, 0), nx));
        assert(iter_tx_row(tx_row(row, nx), nx, 0) == tx_row(row, nx));
    } else {
        lemma_iter_tx_row_shift(row, nx, (k - 1) as nat);
        assert(iter_tx_row(row, nx, k) == tx_row(iter_tx_row(row, nx, (k - 1) as nat), nx));
        assert(iter_tx_row(tx_row(row, nx), nx, (k - 1) as nat) == tx_row(
            iter_tx_row(tx_row(row, nx), nx, (k - 2) as nat),
            nx,
        ));
    }
}

/// Iterated rotations stay inside the row window.
proof fn lemma_iter_tx_row_bound(row: nat, nx: nat, k: nat)
    requires
        1 <= nx <= 62,
        row < pow2(nx),
    ensures
        iter_tx_row(row, nx, k) < pow2(nx),
    decreases k,
{
    if k > 0 {
        lemma_iter_tx_row_bound(row, nx, (k - 1) as nat);
        lemma_tx_row(iter_tx_row(row, nx, (k - 1) as nat), nx);
    }
}

/// Applying the one-row row translation `k` times undoes `k` row
/// rotations.
proof fn lemma_iter_tx_row_cancel(row: nat, nx: nat, k: nat)
    requires
        1 <= nx <= 62,
        row < pow2(nx),
    ensures
        iter_ty(iter_tx_row(row, nx, k), 1, nx, k) == row,
    decreases k,
{
    if k > 0 {
        lemma_iter_tx_row_shift(row, nx, k);
        lemma_tx_row_is_row_rot(row, nx);
        lemma_iter_tx_row_cancel(tx_row(row, nx), nx, (k - 1) as nat);
        // iter_ty(iter_tx_row(tx_row(row), k-1), k-1) == tx_row(row), and one
        // more row translation recovers row
        assert(iter_ty(iter_tx_row(row, nx, k), 1, nx, k) == ty_spec(
            iter_ty(iter_tx_row(row, nx, k), 1, nx, (k - 1) as nat),
            1,
            nx,
        ));
        lemma_iter_ty_shift(iter_tx_row(row, nx, k), 1, nx, k);
    }
}

/// The iterate of the row translation also shifts through its first
/// application.
proof fn lemma_iter_ty_shift(dec: nat, nx: nat, ny: nat, k: nat)
    requires
        1 <= k,
    ensures
        iter_ty(dec, nx, ny, k) == iter_ty(ty_spec(dec, nx, ny), nx, ny, (k - 1) as nat),
    decreases k,
{
    if k == 1 {
        assert(iter_ty(dec, nx, ny, 1) == ty_spec(iter_ty(dec, nx, ny, 0), nx, ny));
        assert(iter_ty(ty_spec(dec, nx, ny), nx, ny, 0) == ty_spec(dec, nx, ny));
    } else {
        lemma_iter_ty_shift(dec, nx, ny, (k - 1) as nat);
        assert(iter_ty(dec, nx, ny, k) == ty_spec(iter_ty(dec, nx, ny, (k - 1) as nat), nx, ny));
        assert(iter_ty(ty_spec(dec, nx, ny), nx, ny, (k - 1) as nat) == ty_spec(
            iter_ty(ty_spec(dec, nx, ny), nx, ny, (k - 2) as nat),
            nx,
            ny,
        ));
    }
}

/// One full cycle of row rotations returns the row: the single-row
/// rotation has order dividing `nx`.
proof fn lemma_tx_row_order(row: nat, nx: nat)
    requires
        1 <= nx <= 62,
        row < pow2(nx),
    ensures
        iter_tx_row(row, nx, nx) == row,
{
    lemma_iter_tx_row_cancel(row, nx, nx);
    lemma_iter_tx_row_bound(row, nx, nx);
    assert(1 * nx == nx) by (nonlinear_arith);
    lemma_translate_y_order(iter_tx_row(row, nx, nx), 1, nx);
}

/// The bottom row and the remaining rows of an iterated column translation
/// evolve independently: the bottom row is rotated `k` times and the rest
/// is translated `k` times.
proof fn lemma_iter_tx_split(dec: nat, nx: nat, ny: nat, k: nat)
    requires
        1 <= nx,
        1 <= ny,
        nx * ny <= 62,
        dec < pow2(nx * ny),
    ensures
        iter_tx(dec, nx, ny, k) == iter_tx_row(dec % pow2(nx), nx, k) + pow2(nx) * iter_tx(
            dec / pow2(nx),
            nx,
            (ny - 1) as nat,
            k,
        ),
        iter_tx(dec, nx, ny, k) < pow2(nx * ny),
    decreases k,
{
    let x = pow2(nx);
    let rest = (nx * (ny - 1)) as nat;
    assert(nx * ny == nx + nx * (ny - 1) && nx <= 62) by (nonlinear_arith)
        requires
            1 <= ny && 1 <= nx && nx * ny <= 62,
    ;
    lemma_pow2_adds(nx, rest);
    lemma_pow2_pos(nx);
    lemma_pow2_pos(rest);
    lemma_mod_division_less_than_divisor(dec as int, x as int);
    lemma_multiply_divide_lt(dec as int, x as int, pow2(rest) as int);
    if k == 0 {
        lemma_fundamental_div_mod(dec as int, x as int);
    } else {
        lemma_iter_tx_split(dec, nx, ny, (k - 1) as nat);
        let v = iter_tx(dec, nx, ny, (k - 1) as nat);
        let rl = iter_tx_row(dec % x, nx, (k - 1) as nat);
        let rh = iter_tx(dec / x, nx, (ny - 1) as nat, (k - 1) as nat);
        lemma_iter_tx_row_bound(dec % x, nx, (k - 1) as nat);
        // v == rl + x * rh with rl < x, so tx_spec acts on rl and rh apart
        lemma_mod_multiples_vanish(rh as int, rl as int, x as int);
        lemma_small_mod(rl, x);
        assert(v % x == rl);
        assert(v / x == rh) by (nonlinear_arith)
            requires
                v == rl + x * rh && 0 <= rl < x && 0 < x && 0 <= rh,
        ;
        assert(tx_spec(v, nx, ny) == tx_row(rl, nx) + x * tx_spec(rh, nx, (ny - 1) as nat));
        assert(iter_tx(dec, nx, ny, k) == tx_spec(v, nx, ny));
        assert(iter_tx_row(dec % x, nx, k) == tx_row(rl, nx));
        assert(iter_tx(dec / x, nx, (ny - 1) as nat, k) == tx_spec(rh, nx, (ny - 1) as nat));
        lemma_tx_spec_bound(v, nx, ny);
    }
}

/// Applying the column translation `nx` times returns every configuration
/// to itself: together with [`lemma_translate_x_injective`] this is the
/// statement that the column translation generates a cyclic group of order
/// dividing `nx` on the configuration space.
pub proof fn lemma_translate_x_order(dec: nat, nx: nat, ny: nat)
    requires
        1 <= nx,
        1 <= ny,
        nx * ny <= 62,
        dec < pow2((nx * ny) as nat),
    ensures
        iter_tx(dec, nx, ny, nx) == dec,
    decreases ny,
{
    let x = pow2(nx);
    lemma_iter_tx_split(dec, nx, ny, nx);
    assert(nx <= 62) by (nonlinear_arith)
        requires
            1 <= nx && 1 <= ny && nx * ny <= 62,
    ;
    lemma_pow2_pos(nx);
    lemma_mod_division_less_than_divisor(dec as int, x as int);
    lemma_tx_row_order(dec % x, nx);
    if ny == 1 {
        // a single row: the high part is empty
        lemma_iter_tx_zero(nx, 0, nx);
        assert(nx * ny == nx) by (nonlinear_arith)
            requires
                ny == 1,
        ;
        lemma_multiply_divide_lt(dec as int, x as int, 1);
        assert(dec / x == 0);
        lemma_fundamental_div_mod(dec as int, x as int);
    } else {
        assert(nx * ny == nx + nx * (ny - 1)) by (nonlinear_arith)
            requires
                1 <= ny,
        ;
        lemma_pow2_adds(nx, (nx * (ny - 1)) as nat);
        lemma_multiply_divide_lt(dec as int, x as int, pow2((nx * (ny - 1)) as nat) as int);
        assert(nx * (ny - 1) <= 62 && 1 <= (ny - 1)) by (nonlinear_arith)
            requires
                1 <= nx && 2 <= ny && nx * ny <= 62,
        ;
        lemma_translate_x_order(dec / x, nx, (ny - 1) as nat);
        lemma_fundamental_div_mod(dec as int, x as int);
    }
}

/// Iterating the column translation on an empty lattice stays at zero.
proof fn lemma_iter_tx_zero(nx: nat, ny: nat, k: nat)
    requires
        ny == 0,
    ensures
        iter_tx(0, nx, ny, k) == 0,
    decreases k,
{
    if k > 0 {
        lemma_iter_tx_zero(nx, ny, (k - 1) as nat);
    }
}

/// Rotating the rows of a configuration with one extra row on top splits:
/// the top row rotates on its own above the rotated lower rows.
proof fn lemma_tx_top_split(a: nat, t: nat, nx: nat, m: nat)
    requires
        1 <= nx,
        a < pow2(nx * m),
        t < pow2(nx),
    ensures
        tx_spec(a + t * pow2(nx * m), nx, m + 1) == tx_spec(a, nx, m) + tx_row(t, nx) * pow2(
            nx * m,
        ),
    decreases m,
{
    let x = pow2(nx);
    lemma_pow2_pos(nx);
    if m == 0 {
        lemma2_to64();
        assert(nx * m == 0) by (nonlinear_arith)
            requires
                m == 0,
        ;
        assert(a == 0);
        lemma_small_mod(t, x);
        lemma_pow2_pos(0);
        lemma_small_div_converse(t as int, x as int);
        assert(tx_spec(t, nx, 1) == tx_row(t % x, nx) + x * tx_spec(t / x, nx, 0));
        assert(a + t * pow2(nx * m) == t) by (nonlinear_arith)
            requires
                a == 0 && pow2(nx * m) == 1,
        ;
        assert(tx_spec(t / x, nx, 0) == 0);
        assert(x * tx_spec(t / x, nx, 0) == 0) by (nonlinear_arith)
            requires
                tx_spec(t / x, nx, 0) == 0,
        ;
        assert(t % x == t);
        assert(tx_spec(t, nx, 1) == tx_row(t, nx));
        assert(m + 1 == 1);
        assert(tx_spec(a + t * pow2(nx * m), nx, m + 1) == tx_row(t, nx));
        assert(tx_spec(a, nx, m) == 0);
        assert(tx_row(t, nx) * pow2(nx * m) == tx_row(t, nx)) by (nonlinear_arith)
            requires
                pow2(nx * m) == 1,
        ;
    } else {
        let pm = (nx * (m - 1)) as nat;
        assert(nx * m == nx + nx * (m - 1) && nx * (m + 1) == nx + nx * m) by (nonlinear_arith)
            requires
                1 <= m && 1 <= nx,
        ;
        lemma_pow2_adds(nx, pm);
        lemma_pow2_pos(pm);
        let v = a + t * pow2((nx * m) as nat);
        let c = t * pow2(pm);
        assert(t * pow2((nx * m) as nat) == x * c) by (nonlinear_arith)
            requires
                pow2((nx * m) as nat) == x * pow2(pm) && c == t * pow2(pm) && 0 <= t,
        ;
        lemma_mod_division_less_than_divisor(a as int, x as int);
        lemma_multiply_divide_lt(a as int, x as int, pow2(pm) as int);
        lemma_mod_multiples_vanish(c as int, a as int, x as int);
        lemma_hoist_over_denominator(a as int, c as int, x as nat);
        assert(v % x == a % x && v / x == a / x + c) by (nonlinear_arith)
            requires
                v == a + x * c && (a + x * c) % x == a % x && (a + c * x) / x == a / x + c,
        ;
        assert(c == t * pow2(nx * ((m - 1) as nat)));
        lemma_tx_top_split(a / x, t, nx, (m - 1) as nat);
        assert(tx_spec(v, nx, m + 1) == tx_row(a % x, nx) + x * tx_spec(v / x, nx, m));
        assert(tx_spec(a, nx, m) == tx_row(a % x, nx) + x * tx_spec(a / x, nx, (m - 1) as nat));
        assert(x * (tx_spec(a / x, nx, (m - 1) as nat) + tx_row(t, nx) * pow2(pm)) == x * tx_spec(
            a / x,
            nx,
            (m - 1) as nat,
        ) + tx_row(t, nx) * pow2((nx * m) as nat)) by (nonlinear_arith)
            requires
                pow2((nx * m) as nat) == x * pow2(pm),
        ;
        assert(tx_spec(v / x, nx, m) == tx_spec(a / x, nx, (m - 1) as nat) + tx_row(t, nx) * pow2(
            pm,
        ));
        assert(tx_spec(v, nx, m + 1) == tx_row(a % x, nx) + x * (tx_spec(a / x, nx, (m - 1) as nat)
            + tx_row(t, nx) * pow2(pm)));
        assert(tx_spec(v, nx, m + 1) == tx_spec(a, nx, m) + tx_row(t, nx) * pow2((nx * m) as nat));
    }
}

/// The two lattice translations commute: rotating the columns and then the
/// rows gives the same configuration as rotating the rows and then the
/// columns.  Together with the order and injectivity facts this makes the
/// walk of the orbit collector realize the abelian translation group of the
/// torus.
pub proof fn lemma_translate_commute(dec: nat, nx: nat, ny: nat)
    requires
        1 <= nx,
        1 <= ny,
        nx * ny <= 62,
        dec < pow2((nx * ny) as nat),
    ensures
        tx_spec(ty_spec(dec, nx, ny), nx, ny) == ty_spec(tx_spec(dec, nx, ny), nx, ny),
{
    let x = pow2(nx);
    let rest = (nx * (ny - 1)) as nat;
    assert(nx * ny == nx + nx * (ny - 1)) by (nonlinear_arith)
        requires
            1 <= ny,
    ;
    lemma_pow2_adds(nx, rest);
    lemma_pow2_pos(nx);
    lemma_pow2_pos(rest);
    let a = dec / x;
    let t = dec % x;
    lemma_mod_division_less_than_divisor(dec as int, x as int);
    lemma_multiply_divide_lt(dec as int, x as int, pow2(rest) as int);
    // rows first: the bottom row t moves on top of the remaining rows a
    assert(ty_spec(dec, nx, ny) == a + t * pow2(rest));
    lemma_tx_top_split(a, t, nx, (ny - 1) as nat);
    assert(tx_spec(ty_spec(dec, nx, ny), nx, ny) == tx_spec(a, nx, (ny - 1) as nat) + tx_row(t, nx)
        * pow2(rest));
    // columns first: the bottom row rotates in place, the rest above it
    assert(tx_spec(dec, nx, ny) == tx_row(t, nx) + x * tx_spec(a, nx, (ny - 1) as nat));
    lemma_tx_row(t, nx);
    lemma_tx_spec_bound(a, nx, (ny - 1) as nat);
    let rl = tx_row(t, nx);
    let rh = tx_spec(a, nx, (ny - 1) as nat);
    lemma_mod_multiples_vanish(rh as int, rl as int, x as int);
    lemma_small_mod(rl, x);
    assert(tx_spec(dec, nx, ny) % x == rl);
    assert(tx_spec(dec, nx, ny) / x == rh) by (nonlinear_arith)
        requires
            tx_spec(dec, nx, ny) == rl + x * rh && 0 <= rl < x && 0 < x && 0 <= rh,
    ;
}

/// Iterated column translations compose additively.
pub proof fn lemma_iter_tx_add(dec: nat, nx: nat, ny: nat, a: nat, b: nat)
    ensures
        iter_tx(dec, nx, ny, a + b) == iter_tx(iter_tx(dec, nx, ny, a), nx, ny, b),
    decreases b,
{
    if b > 0 {
        lemma_iter_tx_add(dec, nx, ny, a, (b - 1) as nat);
        assert(iter_tx(dec, nx, ny, a + b) == tx_spec(
            iter_tx(dec, nx, ny, (a + b - 1) as nat),
            nx,
            ny,
        ));
    }
}

/// Iterated row translations compose additively.
pub proof fn lemma_iter_ty_add(dec: nat, nx: nat, ny: nat, a: nat, b: nat)
    ensures
        iter_ty(dec, nx, ny, a + b) == iter_ty(iter_ty(dec, nx, ny, a), nx, ny, b),
    decreases b,
{
    if b > 0 {
        lemma_iter_ty_add(dec, nx, ny, a, (b - 1) as nat);
        assert(iter_ty(dec, nx, ny, a + b) == ty_spec(
            iter_ty(dec, nx, ny, (a + b - 1) as nat),
            nx,
            ny,
        ));
    }
}

/// Iterated column translations stay inside the configuration window.
pub proof fn lemma_iter_tx_bound(dec: nat, nx: nat, ny: nat, k: nat)
    requires
        1 <= nx,
        dec < pow2(nx * ny),
    ensures
        iter_tx(dec, nx, ny, k) < pow2(nx * ny),
    decreases k,
{
    if k > 0 {
        lemma_iter_tx_bound(dec, nx, ny, (k - 1) as nat);
        lemma_tx_spec_bound(iter_tx(dec, nx, ny, (k - 1) as nat), nx, ny);
    }
}

/// Iterated row translations stay inside the configuration window.
pub proof fn lemma_iter_ty_bound(dec: nat, nx: nat, ny: nat, k: nat)
    requires
        1 <= nx,
        1 <= ny,
        nx * ny <= 62,
        dec < pow2((nx * ny) as nat),
    ensures
        iter_ty(dec, nx, ny, k) < pow2((nx * ny) as nat),
    decreases k,
{
    if k > 0 {
        lemma_iter_ty_bound(dec, nx, ny, (k - 1) as nat);
        lemma_ty_bounds(iter_ty(dec, nx, ny, (k - 1) as nat), nx, ny);
    }
}

/// Column-translation exponents count modulo `nx`.
pub proof fn lemma_iter_tx_reduce(dec: nat, nx: nat, ny: nat, k: nat)
    requires
        1 <= nx,
        1 <= ny,
        nx * ny <= 62,
        dec < pow2((nx * ny) as nat),
    ensures
        iter_tx(dec, nx, ny, k) == iter_tx(dec, nx, ny, k % nx),
    decreases k,
{
    if k < nx {
        lemma_small_mod(k, nx);
    } else {
        lemma_iter_tx_add(dec, nx, ny, nx, (k - nx) as nat);
        lemma_translate_x_order(dec, nx, ny);
        lemma_iter_tx_reduce(dec, nx, ny, (k - nx) as nat);
        lemma_mod_sub_multiples_vanish(k as int, nx as int);
    }
}

/// Row-translation exponents count modulo `ny`.
pub proof fn lemma_iter_ty_reduce(dec: nat, nx: nat, ny: nat, k: nat)
    requires
        1 <= nx,
        1 <= ny,
        nx * ny <= 62,
        dec < pow2((nx * ny) as nat),
    ensures
        iter_ty(dec, nx, ny, k) == iter_ty(dec, nx, ny, k % ny),
    decreases k,
{
    if k < ny {
        lemma_small_mod(k, ny);
    } else {
        lemma_iter_ty_add(dec, nx, ny, ny, (k - ny) as nat);
        lemma_translate_y_order(dec, nx, ny);
        lemma_iter_ty_reduce(dec, nx, ny, (k - ny) as nat);
        lemma_mod_sub_multiples_vanish(k as int, ny as int);
    }
}

/// The row translation commutes with any number of column translations.
proof fn lemma_ty_iter_tx(dec: nat, nx: nat, ny: nat, i: nat)
    requires
        1 <= nx,
        1 <= ny,
        nx * ny <= 62,
        dec < pow2((nx * ny) as nat),
    ensures
        ty_spec(iter_tx(dec, nx, ny, i), nx, ny) == iter_tx(ty_spec(dec, nx, ny), nx, ny, i),
    decreases i,
{
    if i > 0 {
        lemma_ty_iter_tx(dec, nx, ny, (i - 1) as nat);
        let v = iter_tx(dec, nx, ny, (i - 1) as nat);
        lemma_iter_tx_bound(dec, nx, ny, (i - 1) as nat);
        lemma_translate_commute(v, nx, ny);
        assert(iter_tx(ty_spec(dec, nx, ny), nx, ny, i) == tx_spec(
            iter_tx(ty_spec(dec, nx, ny), nx, ny, (i - 1) as nat),
            nx,
            ny,
        ));
    }
}

/// Any numbers of row and column translations commute.
pub proof fn lemma_iter_ty_iter_tx(dec: nat, nx: nat, ny: nat, i: nat, j: nat)
    requires
        1 <= nx,
        1 <= ny,
        nx * ny <= 62,
        dec < pow2((nx * ny) as nat),
    ensures
        iter_ty(iter_tx(dec, nx, ny, i), nx, ny, j) == iter_tx(iter_ty(dec, nx, ny, j), nx, ny, i),
    decreases j,
{
    if j > 0 {
        lemma_iter_ty_iter_tx(dec, nx, ny, i, (j - 1) as nat);
        lemma_iter_ty_bound(dec, nx, ny, (j - 1) as nat);
        lemma_ty_iter_tx(iter_ty(dec, nx, ny, (j - 1) as nat), nx, ny, i);
        assert(iter_ty(iter_tx(dec, nx, ny, i), nx, ny, j) == ty_spec(
            iter_ty(iter_tx(dec, nx, ny, i), nx, ny, (j - 1) as nat),
            nx,
            ny,
        ));
    }
}

/// The number of set bits of a configuration value: its number of up
/// spins, i.e. its magnetization sector.
pub open spec fn popcount(d: nat) -> nat
    decreases d,
{
    if d == 0 {
        0
    } else {
        d % 2 + popcount(d / 2)
    }
}

/// Bits strictly below position `k` and bits shifted up by `k` contribute
/// independently to the population count.
pub proof fn lemma_popcount_split(a: nat, b: nat, k: nat)
    requires
        a < pow2(k),
    ensures
        popcount(a + pow2(k) * b) == popcount(a) + popcount(b),
    decreases k,
{
    lemma_pow2_pos(k);
    if k == 0 {
        lemma2_to64();
        assert(a == 0);
        assert(1 * b == b) by (nonlinear_arith);
        assert(popcount(0) == 0);
    } else {
        lemma_pow2_adds((k - 1) as nat, 1);
        lemma2_to64();
        let v = a + pow2(k) * b;
        let m = pow2((k - 1) as nat);
        let w = m * b;
        assert(pow2(k) == 2 * m);
        assert(v == a + 2 * w) by (nonlinear_arith)
            requires
                v == a + (2 * m) * b && w == m * b,
        ;
        lemma_mod_multiples_vanish(w as int, a as int, 2);
        lemma_hoist_over_denominator(a as int, w as int, 2);
        assert(v % 2 == a % 2 && v / 2 == a / 2 + w) by (nonlinear_arith)
            requires
                v == a + 2 * w && (2 * w + a) % 2 == a % 2 && a / 2 + w == (a + w * 2) / 2 && 0 <= a
                    && 0 <= w,
        ;
        lemma_multiply_divide_lt(a as int, 2, m as int);
        lemma_popcount_split(a / 2, b, (k - 1) as nat);
        assert(popcount(0) == 0);
        if v != 0 {
            assert(popcount(v) == v % 2 + popcount(v / 2));
        }
        if a != 0 {
            assert(popcount(a) == a % 2 + popcount(a / 2));
        }
    }
}

/// A rotated row holds the same number of up spins as the row itself.
proof fn lemma_tx_row_popcount(row: nat, nx: nat)
    requires
        1 <= nx,
        row < pow2(nx),
    ensures
        popcount(tx_row(row, nx)) == popcount(row),
{
    let m = (nx - 1) as nat;
    let h = row / pow2(m);
    let l = row % pow2(m);
    lemma_tx_row(row, nx);
    lemma_pow2_pos(m);
    lemma_mod_division_less_than_divisor(row as int, pow2(m) as int);
    lemma_fundamental_div_mod(row as int, pow2(m) as int);
    // row = l + 2^m * h and tx_row = h + 2 * l split the same two parts
    lemma_popcount_split(l, h, m);
    lemma2_to64();
    assert(h < 2 && pow2(1) == 2);
    lemma_popcount_split(h, l, 1);
    assert(tx_row(row, nx) == h + pow2(1) * l && row == l + pow2(m) * h) by (nonlinear_arith)
        requires
            tx_row(row, nx) == 2 * l + h && row == pow2(m) * h + l && pow2(1) == 2,
    ;
}

/// The column translation conserves the number of up spins: it permutes
/// the sites of each row.
pub proof fn lemma_translate_x_preserves_popcount(dec: nat, nx: nat, ny: nat)
    requires
        1 <= nx,
        dec < pow2(nx * ny),
    ensures
        popcount(tx_spec(dec, nx, ny)) == popcount(dec),
    decreases ny,
{
    if ny == 0 {
        lemma2_to64();
        assert(nx * ny == 0) by (nonlinear_arith)
            requires
                ny == 0,
        ;
        assert(dec == 0);
    } else {
        let x = pow2(nx);
        let rest = (nx * (ny - 1)) as nat;
        assert(nx * ny == nx + nx * (ny - 1)) by (nonlinear_arith)
            requires
                1 <= ny,
        ;
        lemma_pow2_adds(nx, rest);
        lemma_pow2_pos(nx);
        lemma_pow2_pos(rest);
        lemma_mod_division_less_than_divisor(dec as int, x as int);
        lemma_multiply_divide_lt(dec as int, x as int, pow2(rest) as int);
        lemma_tx_row(dec % x, nx);
        lemma_tx_row_popcount(dec % x, nx);
        lemma_translate_x_preserves_popcount(dec / x, nx, (ny - 1) as nat);
        // both sides split into the bottom row and the rows above it
        lemma_popcount_split(tx_row(dec % x, nx), tx_spec(dec / x, nx, (ny - 1) as nat), nx);
        lemma_popcount_split(dec % x, dec / x, nx);
        lemma_fundamental_div_mod(dec as int, x as int);
        assert(dec == dec % x + pow2(nx) * (dec / x)) by (nonlinear_arith)
            requires
                dec == pow2(nx) * (dec / x) + dec % x,
        ;
    }
}

/// The row translation conserves the number of up spins: it permutes whole
/// rows.
pub proof fn lemma_translate_y_preserves_popcount(dec: nat, nx: nat, ny: nat)
    requires
        1 <= nx,
        1 <= ny,
        nx * ny <= 62,
        dec < pow2((nx * ny) as nat),
    ensures
        popcount(ty_spec(dec, nx, ny)) == popcount(dec),
{
    let x = pow2(nx);
    let rest = (nx * (ny - 1)) as nat;
    assert(nx * ny == nx + nx * (ny - 1)) by (nonlinear_arith)
        requires
            1 <= ny,
    ;
    lemma_pow2_adds(nx, rest);
    lemma_pow2_pos(nx);
    lemma_pow2_pos(rest);
    lemma_mod_division_less_than_divisor(dec as int, x as int);
    lemma_multiply_divide_lt(dec as int, x as int, pow2(rest) as int);
    // ty moves the bottom row above the remaining rows: both orderings
    // split into the same two popcounts
    lemma_popcount_split(dec / x, dec % x, rest);
    lemma_popcount_split(dec % x, dec / x, nx);
    lemma_fundamental_div_mod(dec as int, x as int);
    assert(ty_spec(dec, nx, ny) == dec / x + pow2(rest) * (dec % x) && dec == dec % x + pow2(nx) * (
    dec / x)) by (nonlinear_arith)
        requires
            ty_spec(dec, nx, ny) == dec / x + (dec % x) * pow2(rest) && dec == pow2(nx) * (dec / x)
                + dec % x,
    ;
}

/// Whether the single-bit site mask `s` is set (spin up) in `dec`.
pub open spec fn site_up(dec: u64, s: u64) -> bool {
    (dec | s) == dec
}

/// Returns `(true, false)` when exactly site `s1` is up and site `s2` is
/// down, `(false, true)` for the opposite, and `(false, false)` otherwise.
/// `s1` and `s2` are single-bit site masks.
pub fn exchange_spin_flips(dec: BinaryBasis, s1: BinaryBasis, s2: BinaryBasis) -> (r: (bool, bool))
    ensures
        r.0 == (site_up(dec.0, s1.0) && !site_up(dec.0, s2.0)),
        r.1 == (!site_up(dec.0, s1.0) && site_up(dec.0, s2.0)),
{
    let updown = (dec.0 | s1.0 == dec.0) && (dec.0 | s2.0 != dec.0);
    let downup = (dec.0 | s1.0 != dec.0) && (dec.0 | s2.0 == dec.0);
    (updown, downup)
}

/// Returns `(true, false)` when both sites are up, `(false, true)` when both
/// are down.  `s1` and `s2` are single-bit site masks.
pub fn repeated_spins(dec: BinaryBasis, s1: BinaryBasis, s2: BinaryBasis) -> (r: (bool, bool))
    ensures
        r.0 == (site_up(dec.0, s1.0) && site_up(dec.0, s2.0)),
        r.1 == (!site_up(dec.0, s1.0) && !site_up(dec.0, s2.0)),
{
    let upup = (dec.0 | s1.0 == dec.0) && (dec.0 | s2.0 == dec.0);
    let downdown = (dec.0 | s1.0 != dec.0) && (dec.0 | s2.0 != dec.0);
    (upup, downdown)
}

} // verus!
