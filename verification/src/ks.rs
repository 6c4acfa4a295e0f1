//! Bloch basis construction in the fixed-magnetization sector: crystal
//! momentum and total spin are conserved, so only the configurations with a
//! fixed number of up spins are scanned.  They are enumerated
//! combinatorially, without materializing the full space.

use vstd::prelude::*;
use vstd::arithmetic::power2::{pow2, lemma_pow2_adds, lemma_pow2_pos, lemma2_to64};
use crate::basis::{BinaryBasis, valid_dims, in_range, popcount, lemma_popcount_split};
use crate::basis::pow2u64;
use crate::bloch::{
    BlochFunc,
    BlochFuncSet,
    bloch_wf,
    walk_contains,
    walk_step,
    survives,
    sorted_by_lead,
    distinct_leads,
    build_bloch_func,
    lemma_walk_contains_sym,
};
use crate::k::has_lead;
use crate::params::{Dim, K};

verus! {

broadcast use vstd::seq_lib::group_to_multiset_ensures, vstd::multiset::group_multiset_axioms;

/// The binomial coefficient `C(n, c)`, by the Pascal recursion.
pub open spec fn binom(n: nat, c: nat) -> nat
    decreases n,
{
    if c == 0 {
        1
    } else if n == 0 {
        0
    } else {
        binom((n - 1) as nat, c) + binom((n - 1) as nat, (c - 1) as nat)
    }
}

/// Every binomial coefficient of row `n` is at most `2^n` (the row sums to
/// `2^n`, so each entry is bounded by it).
pub proof fn lemma_binom_le_pow2(n: nat, c: nat)
    ensures
        binom(n, c) <= pow2(n),
    decreases n,
{
    lemma_pow2_pos(n);
    if n > 0 && c > 0 {
        lemma_binom_le_pow2((n - 1) as nat, c);
        lemma_binom_le_pow2((n - 1) as nat, (c - 1) as nat);
        lemma_pow2_adds((n - 1) as nat, 1);
        lemma2_to64();
    }
}

/// The exact binomial coefficient `C(n, c)`: the number of `c`-subsets of
/// `n` bit positions, used to size the fixed-magnetization enumeration.
/// Computed by building Pascal's triangle row by row, which stays within
/// `u64` for every lattice this library supports.
pub fn binomial(n: Dim, c: u32) -> (r: u64)
    requires
        n.wf(),
        c <= n.raw,
    ensures
        r == binom(n.raw as nat, c as nat),
{
    let mut row: Vec<u64> = Vec::new();
    row.push(1);
    let mut i: u32 = 0;
    while i < n.raw
        invariant
            n.wf(),
            i <= n.raw,
            row@.len() == i + 1,
            forall|j: int| 0 <= j < row@.len() ==> (#[trigger] row@[j]) == binom(i as nat, j as nat),
        decreases n.raw - i,
    {
        let mut next: Vec<u64> = Vec::new();
        next.push(1);
        let mut j: usize = 1;
        while j <= i as usize
            invariant
                n.wf(),
                i < n.raw,
                row@.len() == i + 1,
                forall|q: int|
                    0 <= q < row@.len() ==> (#[trigger] row@[q]) == binom(i as nat, q as nat),
                1 <= j <= i + 1,
                next@.len() == j,
                forall|q: int|
                    0 <= q < next@.len() ==> (#[trigger] next@[q]) == binom((i + 1) as nat,
                    q as nat),
            decreases i + 1 - j,
        {
            proof {
                lemma_binom_le_pow2(i as nat, (j - 1) as nat);
                lemma_binom_le_pow2(i as nat, j as nat);
                lemma_pow2_adds(i as nat, 1);
                lemma2_to64();
                vstd::arithmetic::power2::lemma_pow2_strictly_increases(i as nat, 62);
                vstd::arithmetic::power2::lemma2_to64_rest();
            }
            let val = row[j - 1] + row[j];
            next.push(val);
            j = j + 1;
        }
        proof {
            lemma_binom_le_pow2(i as nat, i as nat);
        }
        next.push(1);
        proof {
            assert(binom((i + 1) as nat, (i + 1) as nat) == 1) by {
                lemma_binom_diag((i + 1) as nat);
            }
        }
        row = next;
        i = i + 1;
    }
    row[c as usize]
}

/// `C(n, n) == 1` for every `n`.
proof fn lemma_binom_diag(n: nat)
    ensures
        binom(n, n) == 1,
        forall|c: nat| n < c ==> #[trigger] binom(n, c) == 0,
    decreases n,
{
    if n > 0 {
        lemma_binom_diag((n - 1) as nat);
        assert forall|c: nat| n < c implies #[trigger] binom(n, c) == 0 by {
            assert(binom((n - 1) as nat, c) == 0);
            assert(binom((n - 1) as nat, (c - 1) as nat) == 0);
        }
        assert(binom((n - 1) as nat, n) == 0);
    }
}

/// The strictly increasing bit-position list `s` describes one combination
/// of `nup` positions drawn from `0 ..= lmax`.
pub open spec fn is_combo(s: Seq<i32>, nup: nat, lmax: int) -> bool {
    &&& s.len() == nup
    &&& (forall|i: int| 0 <= i < s.len() ==> 0 <= #[trigger] s[i] <= lmax)
    &&& (forall|i: int, j: int| 0 <= i < j < s.len() ==> s[i] < s[j])
}

/// The bitmask with exactly the listed bit positions set.
pub open spec fn mask_of(s: Seq<i32>) -> nat
    decreases s.len(),
{
    if s.len() == 0 {
        0
    } else {
        mask_of(s.drop_last()) + pow2(s.last() as nat)
    }
}

/// A strictly increasing position list masks to a value below
/// `2^(last position + 1)`.
proof fn lemma_mask_of_bound(s: Seq<i32>)
    requires
        forall|i: int| 0 <= i < s.len() ==> 0 <= #[trigger] s[i],
        forall|i: int, j: int| 0 <= i < j < s.len() ==> s[i] < s[j],
        s.len() > 0,
    ensures
        mask_of(s) < pow2((s.last() + 1) as nat),
    decreases s.len(),
{
    lemma_pow2_pos(s.last() as nat);
    assert(mask_of(s) == mask_of(s.drop_last()) + pow2(s.last() as nat));
    if s.len() == 1 {
        assert(s.drop_last().len() == 0);
        assert(mask_of(s.drop_last()) == 0);
        lemma_pow2_adds(s.last() as nat, 1);
        lemma2_to64();
    } else {
        lemma_mask_of_bound(s.drop_last());
        let p = s.drop_last().last();
        vstd::arithmetic::power2::lemma_pow2_strictly_increases((p + 1) as nat, (s.last()
            + 1) as nat);
        lemma_pow2_adds(s.last() as nat, 1);
        lemma2_to64();
        if ((p + 1) as nat) < (s.last() as nat) {
            vstd::arithmetic::power2::lemma_pow2_strictly_increases((p + 1) as nat,
                s.last() as nat);
        }
    }
}

/// Maps a combination of bit positions to the fixed-magnetization
/// configuration with exactly those bits set.
pub fn compose(v: &Vec<i32>) -> (r: BinaryBasis)
    requires
        forall|i: int| 0 <= i < v@.len() ==> 0 <= #[trigger] v@[i] <= 61,
        forall|i: int, j: int| 0 <= i < j < v@.len() ==> v@[i] < v@[j],
    ensures
        r.0 == mask_of(v@),
        v@.len() > 0 ==> r.0 < pow2((v@.last() + 1) as nat),
{
    let mut acc: u64 = 0;
    let mut i: usize = 0;
    while i < v.len()
        invariant
            forall|q: int| 0 <= q < v@.len() ==> 0 <= #[trigger] v@[q] <= 61,
            forall|q: int, q2: int| 0 <= q < q2 < v@.len() ==> v@[q] < v@[q2],
            i <= v@.len(),
            acc == mask_of(v@.take(i as int)),
            i > 0 ==> acc < pow2((v@[i as int - 1] + 1) as nat),
            i == 0 ==> acc == 0,
        decreases v@.len() - i,
    {
        proof {
            assert(v@.take(i as int + 1).drop_last() =~= v@.take(i as int));
            assert(v@.take(i as int + 1).last() == v@[i as int]);
            lemma_pow2_pos(v@[i as int] as nat);
            if i > 0 {
                if ((v@[i as int - 1] + 1) as nat) < (v@[i as int] as nat) {
                    vstd::arithmetic::power2::lemma_pow2_strictly_increases((v@[i as int - 1]
                        + 1) as nat, v@[i as int] as nat);
                }
            }
            lemma_pow2_adds(v@[i as int] as nat, 1);
            lemma2_to64();
            vstd::arithmetic::power2::lemma2_to64_rest();
            if ((v@[i as int] + 1) as nat) < 63 {
                vstd::arithmetic::power2::lemma_pow2_strictly_increases((v@[i as int]
                    + 1) as nat, 63);
            }
        }
        acc = acc + pow2u64(v[i] as u32);
        i = i + 1;
    }
    proof {
        assert(v@.take(v@.len() as int) =~= v@);
    }
    BinaryBasis(acc)
}

/// Position `i` is the first place where the combination is not packed
/// tight against its predecessor: decrementing it is what reverse
/// lexicographic stepping does.
pub open spec fn first_gap(s: Seq<i32>, i: int) -> bool {
    &&& 1 <= i < s.len()
    &&& s[i] - s[i - 1] > 1
    &&& (forall|j: int| 1 <= j < i ==> #[trigger] s[j] - s[j - 1] == 1)
}

/// The combination has no gap at all: together with a first entry of 0 it
/// is the lexicographically least combination `{0, 1, ..., c-1}`.
pub open spec fn no_gap(s: Seq<i32>) -> bool {
    forall|j: int| 1 <= j < s.len() ==> #[trigger] s[j] - s[j - 1] == 1
}

/// Steps a strictly increasing combination of bit positions to its
/// predecessor in reverse lexicographic order over `{0 ..= lmax}`:
/// the first movable position is decremented and everything below it is
/// packed right underneath; the least combination wraps around to the
/// greatest one, `{lmax-c+1, ..., lmax}`.
pub fn permute(v: Vec<i32>, lmax: u32) -> (r: Vec<i32>)
    requires
        1 <= v@.len() <= lmax + 1,
        lmax <= 61,
        forall|i: int| 0 <= i < v@.len() ==> 0 <= #[trigger] v@[i] <= lmax,
        forall|i: int, j: int| 0 <= i < j < v@.len() ==> v@[i] < v@[j],
    ensures
        r@.len() == v@.len(),
        forall|i: int| 0 <= i < r@.len() ==> 0 <= #[trigger] r@[i] <= lmax,
        forall|i: int, j: int| 0 <= i < j < r@.len() ==> r@[i] < r@[j],
        v@[0] > 0 ==> r@ == v@.update(0, (v@[0] - 1) as i32),
        forall|i: int|
            v@[0] == 0 && #[trigger] first_gap(v@, i) ==> (forall|k: int|
                0 <= k < r@.len() ==> #[trigger] r@[k] == (if k <= i {
                    v@[i] - 1 - (i - k)
                } else {
                    v@[k] as int
                })),
        v@[0] == 0 && no_gap(v@) ==> (forall|k: int|
            0 <= k < r@.len() ==> #[trigger] r@[k] == lmax - (v@.len() - 1 - k)),
{
    let mut v = v;
    let ghost orig = v@;
    if v[0] > 0 {
        let x = v[0];
        v[0] = x - 1;
        proof {
            assert(v@ =~= orig.update(0, (x - 1) as i32));
        }
        v
    } else {
        let mut i: usize = 1;
        while i < v.len() && v[i] - v[i - 1] <= 1
            invariant
                v@ == orig,
                1 <= i <= v@.len(),
                forall|j: int| 1 <= j < i ==> #[trigger] v@[j] - v@[j - 1] == 1,
                forall|q: int| 0 <= q < v@.len() ==> 0 <= #[trigger] v@[q] <= lmax,
                forall|q: int, q2: int| 0 <= q < q2 < v@.len() ==> v@[q] < v@[q2],
                v@.len() <= lmax + 1,
                v@[0] == 0,
            decreases v@.len() - i,
        {
            i = i + 1;
        }
        let mut j: usize = i;
        if i == v.len() {
            // the least combination: wrap to the greatest one
            let len = v.len();
            v[len - 1] = lmax as i32;
            j = j - 1;
            proof {
                assert(no_gap(orig));
                assert forall|q: int| 0 <= q < orig.len() implies #[trigger] orig[q] == q by {
                    lemma_packed_is_iota(orig, q);
                }
            }
            while j > 0
                invariant
                    v@.len() == orig.len(),
                    1 <= v@.len() <= lmax + 1,
                    0 <= j < v@.len(),
                    forall|q: int| 0 <= q < j ==> #[trigger] v@[q] == orig[q],
                    forall|q: int|
                        j <= q < v@.len() ==> #[trigger] v@[q] == lmax - (v@.len() - 1 - q),
                decreases j,
            {
                let x = v[j];
                v[j - 1] = x - 1;
                j = j - 1;
            }
            proof {
                assert forall|k: int| 0 <= k < v@.len() implies #[trigger] v@[k] == lmax - (v@.len()
                    - 1 - k) by {}
            }
            v
        } else {
            // decrement the first movable position and pack the prefix
            // right underneath it
            let ghost gi = i as int;
            let x = v[i];
            v[i] = x - 1;
            proof {
                assert(first_gap(orig, gi));
                assert forall|q: int| 0 <= q < gi implies #[trigger] orig[q] == q by {
                    lemma_packed_is_iota(orig.take(gi), q);
                    assert(orig.take(gi)[q] == orig[q]);
                }
            }
            while j > 0
                invariant
                    v@.len() == orig.len(),
                    1 <= gi < v@.len(),
                    0 <= j <= gi,
                    forall|q: int| 0 <= q < j ==> #[trigger] v@[q] == orig[q],
                    forall|q: int| j <= q <= gi ==> #[trigger] v@[q] == orig[gi] - 1 - (gi - q),
                    forall|q: int| gi < q < v@.len() ==> #[trigger] v@[q] == orig[q],
                    forall|q: int| 0 <= q < gi ==> #[trigger] orig[q] == q,
                    orig[gi] - orig[gi - 1] > 1,
                decreases j,
            {
                let x2 = v[j];
                v[j - 1] = x2 - 1;
                j = j - 1;
            }
            proof {
                assert forall|q: int, q2: int| 0 <= q < q2 < v@.len() implies v@[q] < v@[q2] by {}
            }
            v
        }
    }
}

/// A combination that starts at 0 and has no gap is `0, 1, 2, ...`.
proof fn lemma_packed_is_iota(s: Seq<i32>, q: int)
    requires
        s.len() >= 1,
        s[0] == 0,
        no_gap(s),
        0 <= q < s.len(),
    ensures
        s[q] == q,
    decreases q,
{
    if q > 0 {
        lemma_packed_is_iota(s, q - 1);
    }
}

/// A strictly increasing combination masks to a configuration with exactly
/// one set bit per listed position.
pub proof fn lemma_mask_of_popcount(s: Seq<i32>)
    requires
        forall|i: int| 0 <= i < s.len() ==> 0 <= #[trigger] s[i],
        forall|i: int, j: int| 0 <= i < j < s.len() ==> s[i] < s[j],
    ensures
        popcount(mask_of(s)) == s.len(),
    decreases s.len(),
{
    if s.len() > 0 {
        lemma_mask_of_popcount(s.drop_last());
        if s.len() == 1 {
            assert(mask_of(s.drop_last()) == 0);
            lemma_pow2_pos(s.last() as nat);
            lemma_popcount_split(0, 1, s.last() as nat);
        } else {
            lemma_mask_of_bound(s.drop_last());
            let p = s.drop_last().last();
            if ((p + 1) as nat) < (s.last() as nat) {
                vstd::arithmetic::power2::lemma_pow2_strictly_increases((p + 1) as nat,
                    s.last() as nat);
            }
            lemma_popcount_split(mask_of(s.drop_last()), 1, s.last() as nat);
        }
        assert(popcount(0) == 0);
        assert(popcount(1) == 1);
        assert(pow2(s.last() as nat) * 1 == pow2(s.last() as nat)) by (nonlinear_arith);
    }
}

/// `C(m, 1) == m`.
proof fn lemma_binom_one(m: nat)
    ensures
        binom(m, 1) == m,
    decreases m,
{
    if m > 0 {
        lemma_binom_one((m - 1) as nat);
        assert(binom(m, 1) == binom((m - 1) as nat, 1) + binom((m - 1) as nat, 0));
        assert(binom((m - 1) as nat, 0) == 1);
    }
}

/// `C(m, j) >= 1` whenever `j <= m`.
proof fn lemma_binom_pos(m: nat, j: nat)
    requires
        j <= m,
    ensures
        binom(m, j) >= 1,
    decreases m,
{
    if j > 0 {
        lemma_binom_pos((m - 1) as nat, (j - 1) as nat);
    }
}

/// The reverse-lexicographic rank of a combination: how many combinations
/// of the same size over the same ground set precede it in bitmask order.
pub open spec fn combo_rank(s: Seq<i32>) -> nat
    decreases s.len(),
{
    if s.len() == 0 {
        0
    } else {
        combo_rank(s.drop_last()) + binom(s.last() as nat, s.len() as nat)
    }
}

/// A packed run `a, a+1, ..., a+len-1` has rank `C(a+len, len) - 1`.
proof fn lemma_rank_packed(s: Seq<i32>, a: int)
    requires
        0 <= a,
        forall|k: int| 0 <= k < s.len() ==> #[trigger] s[k] == a + k,
    ensures
        combo_rank(s) + 1 == binom((a + s.len()) as nat, s.len() as nat),
    decreases s.len(),
{
    if s.len() == 0 {
    } else {
        lemma_rank_packed(s.drop_last(), a);
        assert(s.drop_last().len() == s.len() - 1);
        assert(forall|k: int|
            0 <= k < s.drop_last().len() ==> #[trigger] s.drop_last()[k] == a + k);
        assert(s.last() == a + s.len() - 1);
        lemma_binom_pos((a + s.len() - 1) as nat, (s.len() - 1) as nat);
        assert(binom((a + s.len()) as nat, s.len() as nat) == binom(
            (a + s.len() - 1) as nat,
            s.len() as nat,
        ) + binom((a + s.len() - 1) as nat, (s.len() - 1) as nat));
    }
}

/// A packed run `a, a+1, ..., a+len-1` masks to `2^(a+len) - 2^a`.
proof fn lemma_mask_packed(s: Seq<i32>, a: int)
    requires
        0 <= a,
        forall|k: int| 0 <= k < s.len() ==> #[trigger] s[k] == a + k,
    ensures
        mask_of(s) + pow2(a as nat) == pow2((a + s.len()) as nat),
    decreases s.len(),
{
    if s.len() == 0 {
    } else {
        lemma_mask_packed(s.drop_last(), a);
        assert(forall|k: int|
            0 <= k < s.drop_last().len() ==> #[trigger] s.drop_last()[k] == a + k);
        assert(s.last() == a + s.len() - 1);
        lemma_pow2_adds((a + s.len() - 1) as nat, 1);
        lemma2_to64();
        assert(pow2((a + s.len()) as nat) == pow2((a + s.len() - 1) as nat) * 2);
    }
}

/// Two equal-length combinations that agree from position `p` on differ in
/// rank and in mask only through their first `p` entries.
proof fn lemma_suffix_split(s: Seq<i32>, t: Seq<i32>, p: int)
    requires
        s.len() == t.len(),
        0 <= p <= s.len(),
        forall|k: int| p <= k < s.len() ==> s[k] == t[k],
    ensures
        combo_rank(s) + combo_rank(t.take(p)) == combo_rank(t) + combo_rank(s.take(p)),
        mask_of(s) + mask_of(t.take(p)) == mask_of(t) + mask_of(s.take(p)),
    decreases s.len() - p,
{
    if p == s.len() {
        assert(s.take(p) =~= s);
        assert(t.take(p) =~= t);
    } else {
        lemma_suffix_split(s.drop_last(), t.drop_last(), p);
        assert(s.drop_last().take(p) =~= s.take(p));
        assert(t.drop_last().take(p) =~= t.take(p));
        assert(s.last() == t.last());
    }
}

/// When a combination starting at 0 is not fully packed, it has a first
/// gap.
proof fn lemma_first_gap_exists(s: Seq<i32>, j: int)
    requires
        forall|a: int, b: int| 0 <= a < b < s.len() ==> s[a] < s[b],
        1 <= j < s.len(),
        s[j] - s[j - 1] > 1,
    ensures
        exists|i: int| first_gap(s, i),
    decreases j,
{
    if forall|k: int| 1 <= k < j ==> #[trigger] s[k] - s[k - 1] == 1 {
        assert(first_gap(s, j));
    } else {
        let k = choose|k: int| 1 <= k < j && #[trigger] s[k] - s[k - 1] != 1;
        assert(s[k - 1] < s[k]);
        assert(s[k] - s[k - 1] > 1);
        lemma_first_gap_exists(s, k);
    }
}

/// How many values below `v` have exactly `c` set bits.
pub open spec fn sector_count(c: nat, v: nat) -> nat
    decreases v,
{
    if v == 0 {
        0
    } else {
        sector_count(c, (v - 1) as nat) + if popcount((v - 1) as nat) == c {
            1nat
        } else {
            0nat
        }
    }
}

/// The sector count grows with the bound.
proof fn lemma_sector_count_monotone(c: nat, v1: nat, v2: nat)
    requires
        v1 <= v2,
    ensures
        sector_count(c, v1) <= sector_count(c, v2),
    decreases v2,
{
    if v1 < v2 {
        lemma_sector_count_monotone(c, v1, (v2 - 1) as nat);
    }
}

/// Counting across the top bit: the values in `[2^n, 2^n + k)` with `c` set
/// bits are the values in `[0, k)` with `c - 1` set bits, shifted.
proof fn lemma_sector_count_shift(c: nat, n: nat, k: nat)
    requires
        k <= pow2(n),
    ensures
        sector_count(c, pow2(n) + k) == sector_count(c, pow2(n)) + if c >= 1 {
            sector_count((c - 1) as nat, k)
        } else {
            0
        },
    decreases k,
{
    if k > 0 {
        lemma_sector_count_shift(c, n, (k - 1) as nat);
        lemma_popcount_split((k - 1) as nat, 1, n);
        assert(popcount(1) == popcount(0) + 1);
        assert(popcount(0) == 0);
        assert(pow2(n) * 1 == pow2(n)) by (nonlinear_arith);
        assert(popcount(((k - 1) + pow2(n)) as nat) == popcount((k - 1) as nat) + 1);
    }
}

/// There are exactly `C(n, c)` configurations of `n` bits with `c` of them
/// set.
pub proof fn lemma_sector_count_is_binom(c: nat, n: nat)
    ensures
        sector_count(c, pow2(n)) == binom(n, c),
    decreases n,
{
    lemma_pow2_pos(n);
    if n == 0 {
        lemma2_to64();
        assert(popcount(0) == 0);
        assert(sector_count(c, 1) == sector_count(c, 0) + if popcount(0) == c {
            1nat
        } else {
            0nat
        });
    } else {
        lemma_sector_count_is_binom(c, (n - 1) as nat);
        if c >= 1 {
            lemma_sector_count_is_binom((c - 1) as nat, (n - 1) as nat);
        }
        lemma_pow2_adds((n - 1) as nat, 1);
        lemma2_to64();
        assert(pow2(n) == pow2((n - 1) as nat) + pow2((n - 1) as nat));
        lemma_sector_count_shift(c, (n - 1) as nat, pow2((n - 1) as nat));
        if c == 0 {
            lemma_binom_diag(0);
        }
    }
}

/// A strictly descending list of `c`-bit values below `v` that misses some
/// `c`-bit value below `v` has fewer entries than the sector holds.
proof fn lemma_descending_bounded(s: Seq<nat>, c: nat, v: nat)
    requires
        forall|k: int| 0 <= k < s.len() ==> #[trigger] s[k] < v && popcount(s[k]) == c,
        forall|k: int, k2: int| 0 <= k < k2 < s.len() ==> s[k] > s[k2],
    ensures
        s.len() <= sector_count(c, v),
    decreases s.len(),
{
    if s.len() > 0 {
        let rest = s.drop_first();
        assert(forall|k: int| 0 <= k < rest.len() ==> #[trigger] rest[k] == s[k + 1]);
        lemma_descending_bounded(rest, c, s[0]);
        assert(sector_count(c, s[0] + 1) == sector_count(c, s[0]) + 1);
        lemma_sector_count_monotone(c, (s[0] + 1) as nat, v);
    }
}

/// A strictly descending list of `c`-bit values below `v` that misses the
/// `c`-bit value `m < v` leaves at least one sector slot unused.
proof fn lemma_descending_missing(s: Seq<nat>, c: nat, v: nat, m: nat)
    requires
        forall|k: int| 0 <= k < s.len() ==> #[trigger] s[k] < v && popcount(s[k]) == c,
        forall|k: int, k2: int| 0 <= k < k2 < s.len() ==> s[k] > s[k2],
        m < v,
        popcount(m) == c,
        forall|k: int| 0 <= k < s.len() ==> #[trigger] s[k] != m,
    ensures
        s.len() + 1 <= sector_count(c, v),
    decreases s.len(),
{
    if s.len() == 0 {
        assert(sector_count(c, m + 1) == sector_count(c, m) + 1);
        lemma_sector_count_monotone(c, (m + 1) as nat, v);
    } else {
        let rest = s.drop_first();
        assert(forall|k: int| 0 <= k < rest.len() ==> #[trigger] rest[k] == s[k + 1]);
        if m < s[0] {
            lemma_descending_missing(rest, c, s[0], m);
            assert(sector_count(c, s[0] + 1) == sector_count(c, s[0]) + 1);
            lemma_sector_count_monotone(c, (s[0] + 1) as nat, v);
        } else {
            assert(m > s[0]);
            lemma_descending_bounded(s, c, (m as int) as nat);
            assert(sector_count(c, m + 1) == sector_count(c, m) + 1);
            lemma_sector_count_monotone(c, (m + 1) as nat, v);
        }
    }
}

/// A value with no set bits is zero.
proof fn lemma_popcount_zero(m: nat)
    requires
        popcount(m) == 0,
    ensures
        m == 0,
    decreases m,
{
    if m > 0 {
        if m % 2 == 0 {
            lemma_popcount_zero(m / 2);
        }
    }
}

/// The configuration `d` has a combination description: it is a
/// fixed-magnetization configuration of `nup` up spins on `n` sites.
pub open spec fn sector_mask(d: nat, n: nat, nup: nat) -> bool {
    exists|s: Seq<i32>| is_combo(s, nup, n as int - 1) && d == mask_of(s)
}

/// Generates the complete list of configurations with exactly `nup` up
/// spins out of `n` sites, by stepping the combination `{0, ..., nup-1}`
/// through all `C(n, nup)` reverse-lexicographic successors.
#[verifier::rlimit(100)]
pub fn sz_basis(n: Dim, nup: u32) -> (r: Vec<BinaryBasis>)
    requires
        n.wf(),
        nup <= n.raw,
    ensures
        r@.len() == binom(n.raw as nat, nup as nat),
        1 <= r@.len(),
        forall|p: int|
            0 <= p < r@.len() ==> (#[trigger] r@[p]).0 < pow2(n.raw as nat) && sector_mask(
                r@[p].0 as nat,
                n.raw as nat,
                nup as nat,
            ) && popcount(r@[p].0 as nat) == nup,
        forall|p: int, q: int| 0 <= p < q < r@.len() ==> (#[trigger] r@[p]).0 > (#[trigger] r@[q]).0,
        r@[0].0 + pow2((n.raw - nup) as nat) == pow2(n.raw as nat),
        forall|m: nat|
            m < pow2(n.raw as nat) && #[trigger] popcount(m) == nup ==> exists|p: int|
                0 <= p < r@.len() && (#[trigger] r@[p]).0 == m,
{
    proof {
        lemma_binom_pos(n.raw as nat, nup as nat);
    }
    if nup == 0 {
        // the all-spins-down sector holds exactly the zero configuration
        let mut states: Vec<BinaryBasis> = Vec::new();
        states.push(BinaryBasis(0));
        proof {
            lemma_pow2_pos(n.raw as nat);
            assert(popcount(0) == 0);
            let empty: Seq<i32> = Seq::empty();
            assert(is_combo(empty, 0, n.raw as int - 1));
            assert(mask_of(empty) == 0);
            assert(sector_mask(0, n.raw as nat, 0));
        }
        proof {
            lemma_pow2_pos(n.raw as nat);
            assert forall|m: nat| m < pow2(n.raw as nat) && #[trigger] popcount(m) == nup
            implies exists|p: int| 0 <= p < states@.len() && (#[trigger] states@[p]).0 == m by {
                lemma_popcount_zero(m);
                assert(states@[0].0 == m);
            }
        }
        return states;
    }
    let mut l: Vec<i32> = Vec::new();
    let mut q: u32 = 0;
    while q < nup
        invariant
            nup <= 62,
            q <= nup,
            l@.len() == q,
            forall|a: int| 0 <= a < l@.len() ==> (#[trigger] l@[a]) == a,
        decreases nup - q,
    {
        l.push(q as i32);
        q = q + 1;
    }
    let l_size = binomial(n, nup);
    let mut states: Vec<BinaryBasis> = Vec::new();
    let mut it: u64 = 0;
    while it < l_size
        invariant
            n.wf(),
            1 <= nup <= n.raw,
            it <= l_size,
            l_size == binom(n.raw as nat, nup as nat),
            states@.len() == it,
            l@.len() == nup,
            forall|a: int| 0 <= a < l@.len() ==> 0 <= #[trigger] l@[a] <= n.raw - 1,
            forall|a: int, b: int| 0 <= a < b < l@.len() ==> l@[a] < l@[b],
            it == 0 ==> forall|a: int| 0 <= a < l@.len() ==> (#[trigger] l@[a]) == a,
            it >= 1 ==> combo_rank(l@) + it == binom(n.raw as nat, nup as nat),
            it >= 1 ==> states@[it as int - 1].0 == mask_of(l@),
            forall|p: int, q: int|
                0 <= p < q < states@.len() ==> (#[trigger] states@[p]).0 > (
                #[trigger] states@[q]).0,
            it >= 1 ==> states@[0].0 + pow2((n.raw - nup) as nat) == pow2(n.raw as nat),
            forall|p: int|
                0 <= p < states@.len() ==> (#[trigger] states@[p]).0 < pow2(n.raw as nat)
                    && sector_mask(states@[p].0 as nat, n.raw as nat, nup as nat) && popcount(
                    states@[p].0 as nat) == nup,
        decreases l_size - it,
    {
        let ghost lpre = l@;
        l = permute(l, n.raw - 1);
        let b = compose(&l);
        proof {
            lemma_pow2_pos((n.raw - 1) as nat);
            if ((l@.last() + 1) as nat) < n.raw as nat {
                vstd::arithmetic::power2::lemma_pow2_strictly_increases((l@.last() + 1) as nat,
                    n.raw as nat);
            }
            assert(is_combo(l@, nup as nat, n.raw as int - 1));
            assert(sector_mask(b.0 as nat, n.raw as nat, nup as nat));
            lemma_mask_of_popcount(l@);
            // rank and mask bookkeeping for the enumeration step
            let total = binom(n.raw as nat, nup as nat);
            if lpre[0] > 0 {
                // the first entry was decremented in place
                assert(l@ == lpre.update(0, (lpre[0] - 1) as i32));
                lemma_suffix_split(l@, lpre, 1);
                assert(l@.take(1).drop_last() =~= Seq::<i32>::empty());
                assert(lpre.take(1).drop_last() =~= Seq::<i32>::empty());
                assert(l@.take(1).len() == 1 && l@.take(1).last() == l@[0]);
                assert(lpre.take(1).len() == 1 && lpre.take(1).last() == lpre[0]);
                assert(combo_rank(Seq::<i32>::empty()) == 0);
                assert(mask_of(Seq::<i32>::empty()) == 0);
                assert(combo_rank(l@.take(1)) == binom(l@[0] as nat, 1));
                assert(combo_rank(lpre.take(1)) == binom(lpre[0] as nat, 1));
                lemma_binom_one(l@[0] as nat);
                lemma_binom_one(lpre[0] as nat);
                assert(combo_rank(l@) + 1 == combo_rank(lpre));
                assert(mask_of(l@.take(1)) == pow2(l@[0] as nat));
                assert(mask_of(lpre.take(1)) == pow2(lpre[0] as nat));
                vstd::arithmetic::power2::lemma_pow2_strictly_increases(l@[0] as nat,
                    lpre[0] as nat);
                assert(mask_of(l@) < mask_of(lpre));
                assert(it >= 1);
            } else if no_gap(lpre) {
                // the least combination wraps around to the greatest one
                assert forall|a: int| 0 <= a < lpre.len() implies #[trigger] lpre[a] == a by {
                    lemma_packed_is_iota(lpre, a);
                }
                lemma_rank_packed(lpre, 0);
                lemma_binom_diag(nup as nat);
                assert(combo_rank(lpre) == 0);
                assert(it == 0);
                let a2 = n.raw as int - nup as int;
                assert forall|k: int| 0 <= k < l@.len() implies #[trigger] l@[k] == a2 + k by {
                    assert(l@[k] == (n.raw - 1) - (lpre.len() - 1 - k));
                }
                lemma_rank_packed(l@, a2);
                lemma_mask_packed(l@, a2);
                assert(combo_rank(l@) + 1 == total);
                assert(mask_of(l@) + pow2((n.raw - nup) as nat) == pow2(n.raw as nat));
            } else {
                // decrement at the first gap, prefix packed underneath it
                let j0 = choose|j0: int| 1 <= j0 < lpre.len() && #[trigger] lpre[j0] - lpre[j0 - 1]
                    != 1;
                assert(lpre[j0] - lpre[j0 - 1] > 1);
                lemma_first_gap_exists(lpre, j0);
                let i = choose|i: int| first_gap(lpre, i);
                assert forall|k: int| 0 <= k < i implies #[trigger] lpre[k] == k by {
                    lemma_packed_is_iota(lpre.take(i), k);
                    assert(lpre.take(i)[k] == lpre[k]);
                }
                assert(lpre[i] >= i + 1);
                let a2 = lpre[i] - 1 - i;
                assert(forall|k: int|
                    0 <= k < l@.len() ==> #[trigger] l@[k] == (if k <= i {
                        lpre[i] - 1 - (i - k)
                    } else {
                        lpre[k] as int
                    }));
                lemma_suffix_split(l@, lpre, i + 1);
                assert forall|k: int| 0 <= k < l@.take(i + 1).len() implies #[trigger] l@.take(
                    i + 1,
                )[k] == a2 + k by {
                    assert(l@.take(i + 1)[k] == l@[k]);
                }
                lemma_rank_packed(l@.take(i + 1), a2);
                lemma_mask_packed(l@.take(i + 1), a2);
                // the old prefix below the gap is the packed least run
                assert(lpre.take(i + 1).drop_last() =~= lpre.take(i));
                assert forall|k: int| 0 <= k < lpre.take(i).len() implies #[trigger] lpre.take(
                    i,
                )[k] == 0 + k by {
                    assert(lpre.take(i)[k] == lpre[k]);
                }
                lemma_rank_packed(lpre.take(i), 0);
                lemma_mask_packed(lpre.take(i), 0);
                lemma_binom_diag(i as nat);
                assert(combo_rank(lpre.take(i)) == 0);
                assert(lpre.take(i + 1).last() == lpre[i]);
                assert(combo_rank(lpre.take(i + 1)) == binom(lpre[i] as nat, (i + 1) as nat));
                assert(mask_of(lpre.take(i + 1)) == mask_of(lpre.take(i)) + pow2(lpre[i] as nat));
                assert(combo_rank(l@) + 1 == combo_rank(lpre));
                lemma_pow2_pos(i as nat);
                lemma_pow2_pos(a2 as nat);
                assert(mask_of(l@) < mask_of(lpre));
                assert(it >= 1);
            }
        }
        states.push(b);
        proof {
            assert forall|p: int, q: int| 0 <= p < q < states@.len() implies (
            #[trigger] states@[p]).0 > (#[trigger] states@[q]).0 by {
                if q == states@.len() - 1 && it >= 1 {
                    assert(states@[it as int - 1].0 == mask_of(lpre));
                    assert(states@[q].0 == mask_of(l@));
                    if p < it - 1 {
                        assert(states@[p].0 > states@[it as int - 1].0);
                    }
                }
            }
        }
        it = it + 1;
    }
    proof {
        // the output is a duplicate-free descending list of sector values
        // whose length equals the whole sector's size, so it misses none
        let vals = Seq::<nat>::new(states@.len() as nat, |p: int| states@[p].0 as nat);
        lemma_sector_count_is_binom(nup as nat, n.raw as nat);
        assert forall|m: nat| m < pow2(n.raw as nat) && #[trigger] popcount(m) == nup
        implies exists|p: int| 0 <= p < states@.len() && (#[trigger] states@[p]).0 == m by {
            if !(exists|p: int| 0 <= p < states@.len() && (#[trigger] states@[p]).0 == m) {
                assert(forall|k: int| 0 <= k < vals.len() ==> #[trigger] vals[k] == states@[k].0);
                assert forall|k: int| 0 <= k < vals.len() implies #[trigger] vals[k] < pow2(
                    n.raw as nat,
                ) && popcount(vals[k]) == nup by {
                    assert(states@[k].0 < pow2(n.raw as nat));
                }
                assert forall|k: int, k2: int| 0 <= k < k2 < vals.len() implies vals[k]
                    > vals[k2] by {
                    assert(states@[k].0 > states@[k2].0);
                }
                assert forall|k: int| 0 <= k < vals.len() implies #[trigger] vals[k] != m by {
                    assert(states@[k].0 != m);
                }
                lemma_descending_missing(vals, nup as nat, pow2(n.raw as nat), m);
                assert(false);
            }
        }
    }
    states
}

/// A permutation with distinct representatives still has distinct
/// representatives after rearrangement.
proof fn lemma_permutation_keeps_distinct_leads(pre: Seq<BlochFunc>, post: Seq<BlochFunc>)
    requires
        post.to_multiset() == pre.to_multiset(),
        distinct_leads(pre),
    ensures
        distinct_leads(post),
{
    assert(pre.no_duplicates()) by {
        assert forall|i: int, j: int|
            0 <= i < pre.len() && 0 <= j < pre.len() && i != j implies pre[i] != pre[j] by {
            if i < j {
                assert(pre[i].lead.0 != pre[j].lead.0);
            } else {
                assert(pre[j].lead.0 != pre[i].lead.0);
            }
        }
    }
    pre.lemma_multiset_has_no_duplicates();
    post.lemma_multiset_has_no_duplicates_conv();
    assert forall|i: int, j: int| 0 <= i < j < post.len() implies (#[trigger] post[i]).lead.0 != (
    #[trigger] post[j]).lead.0 by {
        if post[i].lead.0 == post[j].lead.0 {
            assert(post.contains(post[i]));
            assert(post.contains(post[j]));
            assert(post.to_multiset().count(post[i]) > 0);
            assert(post.to_multiset().count(post[j]) > 0);
            assert(pre.to_multiset().count(post[i]) > 0);
            assert(pre.to_multiset().count(post[j]) > 0);
            assert(pre.contains(post[i]));
            assert(pre.contains(post[j]));
            let i1 = choose|i1: int| 0 <= i1 < pre.len() && pre[i1] == post[i];
            let i2 = choose|i2: int| 0 <= i2 < pre.len() && pre[i2] == post[j];
            assert(post[i] != post[j]);
            assert(i1 != i2);
            if i1 < i2 {
                assert(pre[i1].lead.0 != pre[i2].lead.0);
            } else {
                assert(pre[i2].lead.0 != pre[i1].lead.0);
            }
            assert(false);
        }
    }
}

/// Some already-processed sector representative's orbit walk reaches `m`.
spec fn sector_covered(ps: Seq<nat>, nx: nat, ny: nat, m: nat) -> bool {
    exists|t: int| 0 <= t < ps.len() && walk_contains(#[trigger] ps[t], nx, ny, m)
}

/// Builds the Bloch-function basis of the fixed-magnetization sector with
/// `nup` up spins, at momentum `(kx, ky)`.
///
/// The combinatorially enumerated sector list is scanned in order; each
/// yet-unvisited configuration starts a translation orbit, every sector
/// position holding any configuration reached by that orbit's walk is
/// marked visited (translations preserve the number of up spins, so the
/// walk never leaves the sector), and surviving orbits are emitted with the
/// first-encountered configuration as representative.  The finished set is
/// sorted by representative value.
#[verifier::rlimit(100)]
pub fn bloch_states(nx: Dim, ny: Dim, kx: K, ky: K, nup: u32) -> (r: BlochFuncSet)
    requires
        nx.wf(),
        ny.wf(),
        valid_dims(nx.raw, ny.raw),
        kx.wf_for(nx),
        ky.wf_for(ny),
        nup <= nx.raw * ny.raw,
    ensures
        r.nx == nx.raw && r.ny == ny.raw,
        forall|i: int|
            0 <= i < r.funcs@.len() ==> bloch_wf(
                &(#[trigger] r.funcs@[i]),
                nx.raw as nat,
                ny.raw as nat,
                kx.raw as nat,
                ky.raw as nat,
            ) && sector_mask(r.funcs@[i].lead.0 as nat, (nx.raw * ny.raw) as nat, nup as nat),
        sorted_by_lead(r.funcs@),
        distinct_leads(r.funcs@),
        forall|i: int, j: int|
            0 <= i < r.funcs@.len() && 0 <= j < r.funcs@.len() && i != j ==> !walk_contains(
                (#[trigger] r.funcs@[i]).lead.0 as nat,
                nx.raw as nat,
                ny.raw as nat,
                (#[trigger] r.funcs@[j]).lead.0 as nat,
            ),
        survives(
            (pow2((nx.raw * ny.raw) as nat) - pow2(((nx.raw * ny.raw) - nup) as nat)) as nat,
            nx.raw as nat,
            ny.raw as nat,
            kx.raw as nat,
            ky.raw as nat,
        ) ==> has_lead(
            r.funcs@,
            (pow2((nx.raw * ny.raw) as nat) - pow2(((nx.raw * ny.raw) - nup) as nat)) as nat,
        ),
        forall|i: int, s: nat|
            0 <= i < r.funcs@.len() && s < nx.raw * ny.raw ==> #[trigger] walk_step(
                r.funcs@[i].lead.0 as nat,
                nx.raw as nat,
                ny.raw as nat,
                s,
            ) <= r.funcs@[i].lead.0,
        forall|m: nat|
            m < pow2((nx.raw * ny.raw) as nat) && #[trigger] popcount(m) == nup
                ==> crate::k::emitted_covers(r.funcs@, nx.raw as nat, ny.raw as nat, m) || (
            exists|l: nat|
                l < pow2((nx.raw * ny.raw) as nat) && popcount(l) == nup && !survives(
                    l,
                    nx.raw as nat,
                    ny.raw as nat,
                    kx.raw as nat,
                    ky.raw as nat,
                ) && walk_contains(l, nx.raw as nat, ny.raw as nat, m)),
{
    let nxr = nx.raw;
    let nyr = ny.raw;
    let kxr = kx.raw;
    let kyr = ky.raw;
    let ghost nxn = nxr as nat;
    let ghost nyn = nyr as nat;
    let ghost kxn = kxr as nat;
    let ghost kyn = kyr as nat;
    let n = nxr * nyr;
    proof {
        assert(1 <= nxr * nyr) by (nonlinear_arith)
            requires
                1 <= nxr && 1 <= nyr,
        ;
    }
    let ndim = Dim { raw: n };
    let list = sz_basis(ndim, nup);
    let mut sieve: Vec<bool> = Vec::new();
    while sieve.len() < list.len()
        invariant
            sieve@.len() <= list@.len(),
            forall|m: int| 0 <= m < sieve@.len() ==> #[trigger] sieve@[m],
        decreases list@.len() - sieve@.len(),
    {
        sieve.push(true);
    }
    let mut bfuncs: Vec<BlochFunc> = Vec::new();
    let ghost mut processed: Seq<nat> = Seq::empty();
    let mut p: usize = 0;
    while p < list.len()
        invariant
            valid_dims(nxr, nyr),
            kxr < nxr,
            kyr < nyr,
            nxn == nxr as nat && nyn == nyr as nat && kxn == kxr as nat && kyn == kyr as nat,
            n == nxr * nyr,
            sieve@.len() == list@.len(),
            p <= list@.len(),
            forall|q: int|
                0 <= q < list@.len() ==> (#[trigger] list@[q]).0 < pow2(nxn * nyn) && sector_mask(
                    list@[q].0 as nat,
                    (nxr * nyr) as nat,
                    nup as nat,
                ) && popcount(list@[q].0 as nat) == nup,
            forall|t: int|
                0 <= t < processed.len() ==> #[trigger] processed[t] < pow2(nxn * nyn) && popcount(
                    processed[t],
                ) == nup && (survives(processed[t], nxn, nyn, kxn, kyn) ==> has_lead(
                    bfuncs@,
                    processed[t],
                )),
            forall|q: int|
                0 <= q < list@.len() ==> (!(#[trigger] sieve@[q]) <==> sector_covered(
                    processed,
                    nxn,
                    nyn,
                    list@[q].0 as nat,
                )),
            forall|q: int| 0 <= q < p ==> !(#[trigger] sieve@[q]),
            forall|q: int, q2: int|
                0 <= q < q2 < list@.len() ==> (#[trigger] list@[q]).0 > (#[trigger] list@[q2]).0,
            forall|m: nat|
                m < pow2(nxn * nyn) && #[trigger] popcount(m) == nup ==> exists|q: int|
                    0 <= q < list@.len() && (#[trigger] list@[q]).0 == m,
            forall|i: int, s: nat|
                0 <= i < bfuncs@.len() && s < nxn * nyn ==> #[trigger] walk_step(
                    bfuncs@[i].lead.0 as nat,
                    nxn,
                    nyn,
                    s,
                ) <= bfuncs@[i].lead.0,
            forall|i: int|
                0 <= i < bfuncs@.len() ==> bloch_wf(&(#[trigger] bfuncs@[i]), nxn, nyn, kxn, kyn)
                    && sector_mask(bfuncs@[i].lead.0 as nat, (nxr * nyr) as nat, nup as nat),
            forall|i: int, j: int|
                0 <= i < j < bfuncs@.len() ==> (#[trigger] bfuncs@[i]).lead.0 != (
                #[trigger] bfuncs@[j]).lead.0,
            forall|i: int, q: int|
                0 <= i < bfuncs@.len() && 0 <= q < list@.len() && walk_contains(
                    (#[trigger] bfuncs@[i]).lead.0 as nat,
                    nxn,
                    nyn,
                    (#[trigger] list@[q]).0 as nat,
                ) ==> !sieve@[q],
            forall|i: int, j: int|
                0 <= i < bfuncs@.len() && 0 <= j < bfuncs@.len() && i != j ==> !walk_contains(
                    (#[trigger] bfuncs@[i]).lead.0 as nat,
                    nxn,
                    nyn,
                    (#[trigger] bfuncs@[j]).lead.0 as nat,
                ),
            1 <= list@.len(),
            list@[0].0 + pow2(((nxr * nyr) - nup) as nat) == pow2((nxr * nyr) as nat),
            p == 0 ==> forall|q: int| 0 <= q < sieve@.len() ==> #[trigger] sieve@[q],
            p >= 1 && survives(list@[0].0 as nat, nxn, nyn, kxn, kyn) ==> has_lead(
                bfuncs@,
                list@[0].0 as nat,
            ),
        decreases list@.len() - p,
    {
        if sieve[p] {
            let bb = list[p];
            proof {
                assert(nxn * nyn == (nxr * nyr) as nat);
                assert(in_range(bb.0 as nat, (nxr * nyr) as nat));
            }
            let (c, of) = build_bloch_func(bb, nxr, nyr, kxr, kyr);
            let ghost prev = processed;
            proof {
                assert forall|q: int| 0 <= q < p implies #[trigger] sector_covered(
                    prev,
                    nxn,
                    nyn,
                    list@[q].0 as nat,
                ) by {
                    assert(!sieve@[q]);
                }
                assert(!sector_covered(prev, nxn, nyn, list@[p as int].0 as nat));
            }
            let mut s: usize = 0;
            while s < c.len()
                invariant
                    sieve@.len() == list@.len(),
                    s <= c@.len(),
                    forall|i: int, q: int|
                        0 <= i < bfuncs@.len() && 0 <= q < list@.len() && walk_contains(
                            (#[trigger] bfuncs@[i]).lead.0 as nat,
                            nxn,
                            nyn,
                            (#[trigger] list@[q]).0 as nat,
                        ) ==> !sieve@[q],
                    forall|s2: int, q: int|
                        0 <= s2 < s && 0 <= q < list@.len() && (#[trigger] list@[q]).0 == (
                        #[trigger] c@[s2]).0.0 ==> !sieve@[q],
                    forall|q: int|
                        0 <= q < list@.len() ==> (!(#[trigger] sieve@[q]) <==> (sector_covered(
                            prev,
                            nxn,
                            nyn,
                            list@[q].0 as nat,
                        ) || exists|s2: int|
                            0 <= s2 < s && (#[trigger] c@[s2]).0.0 == list@[q].0)),
                decreases c@.len() - s,
            {
                let target = c[s].0;
                let mut q: usize = 0;
                while q < list.len()
                    invariant
                        sieve@.len() == list@.len(),
                        q <= list@.len(),
                        s < c@.len(),
                        target == c@[s as int].0,
                        forall|i: int, q2: int|
                            0 <= i < bfuncs@.len() && 0 <= q2 < list@.len() && walk_contains(
                                (#[trigger] bfuncs@[i]).lead.0 as nat,
                                nxn,
                                nyn,
                                (#[trigger] list@[q2]).0 as nat,
                            ) ==> !sieve@[q2],
                        forall|s2: int, q2: int|
                            0 <= s2 < s && 0 <= q2 < list@.len() && (#[trigger] list@[q2]).0 == (
                            #[trigger] c@[s2]).0.0 ==> !sieve@[q2],
                        forall|q2: int|
                            0 <= q2 < q && (#[trigger] list@[q2]).0 == c@[s as int].0.0
                                ==> !sieve@[q2],
                        forall|q2: int|
                            0 <= q2 < list@.len() ==> (!(#[trigger] sieve@[q2]) <==> (
                            sector_covered(prev, nxn, nyn, list@[q2].0 as nat) || (exists|s2: int|
                                0 <= s2 < s && (#[trigger] c@[s2]).0.0 == list@[q2].0) || (q2 < q
                                && list@[q2].0 == c@[s as int].0.0))),
                    decreases list@.len() - q,
                {
                    if list[q].0 == target.0 {
                        sieve[q] = false;
                    }
                    q = q + 1;
                }
                proof {
                    assert forall|q2: int| 0 <= q2 < list@.len() implies (!(
                    #[trigger] sieve@[q2]) <==> (sector_covered(prev, nxn, nyn, list@[q2].0 as nat)
                        || exists|s2: int|
                        0 <= s2 < s + 1 && (#[trigger] c@[s2]).0.0 == list@[q2].0)) by {
                        if !sieve@[q2] {
                            if !sector_covered(prev, nxn, nyn, list@[q2].0 as nat) {
                                if exists|s2: int|
                                    0 <= s2 < s && (#[trigger] c@[s2]).0.0 == list@[q2].0 {
                                    let s2 = choose|s2: int|
                                        0 <= s2 < s && (#[trigger] c@[s2]).0.0 == list@[q2].0;
                                    assert(c@[s2].0.0 == list@[q2].0);
                                } else {
                                    assert(list@[q2].0 == c@[s as int].0.0);
                                }
                            }
                        } else {
                            if exists|s2: int|
                                0 <= s2 < s + 1 && (#[trigger] c@[s2]).0.0 == list@[q2].0 {
                                let s2 = choose|s2: int|
                                    0 <= s2 < s + 1 && (#[trigger] c@[s2]).0.0 == list@[q2].0;
                                if s2 < s {
                                    assert(false);
                                } else {
                                    assert(list@[q2].0 == c@[s as int].0.0);
                                    assert(false);
                                }
                            }
                        }
                    }
                }
                s = s + 1;
            }
            proof {
                // this position itself is now marked: the walk starts here
                assert(c@[0].0.0 == walk_step(bb.0 as nat, nxn, nyn, 0));
                assert(!sieve@[p as int]) by {
                    assert(c@[0].0.0 == list@[p as int].0);
                }
                assert forall|q: int| 0 <= q < p + 1 implies !(#[trigger] sieve@[q]) by {
                    if q < p {
                        assert(sector_covered(prev, nxn, nyn, list@[q].0 as nat));
                    }
                }
                processed = processed.push(bb.0 as nat);
                assert(processed.len() == prev.len() + 1);
                assert(processed[processed.len() - 1] == bb.0 as nat);
                assert forall|q: int| 0 <= q < list@.len() implies (!(#[trigger] sieve@[q])
                    <==> sector_covered(processed, nxn, nyn, list@[q].0 as nat)) by {
                    if !sieve@[q] {
                        if sector_covered(prev, nxn, nyn, list@[q].0 as nat) {
                            let t = choose|t: int|
                                0 <= t < prev.len() && walk_contains(
                                    #[trigger] prev[t],
                                    nxn,
                                    nyn,
                                    list@[q].0 as nat,
                                );
                            assert(processed[t] == prev[t]);
                            assert(sector_covered(processed, nxn, nyn, list@[q].0 as nat));
                        } else {
                            let s2 = choose|s2: int|
                                0 <= s2 < c@.len() && (#[trigger] c@[s2]).0.0 == list@[q].0;
                            assert(c@[s2].0.0 == walk_step(bb.0 as nat, nxn, nyn, s2 as nat));
                            assert(walk_contains(bb.0 as nat, nxn, nyn, list@[q].0 as nat));
                            assert(sector_covered(processed, nxn, nyn, list@[q].0 as nat));
                        }
                    } else {
                        if sector_covered(processed, nxn, nyn, list@[q].0 as nat) {
                            let t = choose|t: int|
                                0 <= t < processed.len() && walk_contains(
                                    #[trigger] processed[t],
                                    nxn,
                                    nyn,
                                    list@[q].0 as nat,
                                );
                            if t < processed.len() - 1 {
                                assert(prev[t] == processed[t]);
                                assert(sector_covered(prev, nxn, nyn, list@[q].0 as nat));
                                assert(false);
                            } else {
                                let s2 = choose|s2: nat|
                                    s2 < nxn * nyn && walk_step(bb.0 as nat, nxn, nyn, s2)
                                        == list@[q].0 as nat;
                                assert(c@[s2 as int].0.0 == list@[q].0);
                                assert(false);
                            }
                        }
                    }
                }
            }
            match of {
                Some(f) => {
                    proof {
                        assert(f.lead.0 == bb.0);
                        assert(c@[0].0.0 == bb.0);
                        assert(walk_step(bb.0 as nat, nxn, nyn, 0) == bb.0 as nat);
                        assert(nxn * nyn >= 1) by (nonlinear_arith)
                            requires
                                1 <= nxn && 1 <= nyn,
                        ;
                        assert(walk_contains(bb.0 as nat, nxn, nyn, bb.0 as nat));
                        // no earlier representative reaches this one: its
                        // position would already be marked visited
                        assert forall|i: int|
                            0 <= i < bfuncs@.len() implies !walk_contains(
                            (#[trigger] bfuncs@[i]).lead.0 as nat,
                            nxn,
                            nyn,
                            bb.0 as nat,
                        ) by {
                            if walk_contains(bfuncs@[i].lead.0 as nat, nxn, nyn, bb.0 as nat) {
                                assert(list@[p as int].0 == bb.0);
                                assert(!sieve@[p as int]);
                            }
                        }
                        assert forall|i: int|
                            0 <= i < bfuncs@.len() implies (#[trigger] bfuncs@[i]).lead.0 != bb.0
                        by {
                            if bfuncs@[i].lead.0 == bb.0 {
                                assert(walk_contains(bfuncs@[i].lead.0 as nat, nxn, nyn,
                                    bb.0 as nat));
                            }
                        }
                        // nor does this one reach an earlier representative
                        assert forall|i: int|
                            0 <= i < bfuncs@.len() implies !walk_contains(
                            bb.0 as nat,
                            nxn,
                            nyn,
                            (#[trigger] bfuncs@[i]).lead.0 as nat,
                        ) by {
                            if walk_contains(bb.0 as nat, nxn, nyn, bfuncs@[i].lead.0 as nat) {
                                lemma_walk_contains_sym(
                                    bb.0 as nat,
                                    bfuncs@[i].lead.0 as nat,
                                    nxn,
                                    nyn,
                                );
                            }
                        }
                        // every sector position this orbit reaches is marked
                        assert forall|q: int|
                            0 <= q < list@.len() && walk_contains(
                                bb.0 as nat,
                                nxn,
                                nyn,
                                (#[trigger] list@[q]).0 as nat,
                            ) implies !sieve@[q] by {
                            let s2 = choose|s2: nat|
                                s2 < nxn * nyn && walk_step(bb.0 as nat, nxn, nyn, s2)
                                    == list@[q].0 as nat;
                            assert(c@[s2 as int].0.0 == walk_step(bb.0 as nat, nxn, nyn, s2));
                        }
                        let bpre = bfuncs@;
                        assert forall|i: int, j: int|
                            0 <= i < bpre.len() + 1 && 0 <= j < bpre.len() + 1 && i != j
                            implies !walk_contains(
                            (#[trigger] bpre.push(f)[i]).lead.0 as nat,
                            nxn,
                            nyn,
                            (#[trigger] bpre.push(f)[j]).lead.0 as nat,
                        ) by {
                            if i < bpre.len() && j < bpre.len() {
                                assert(bpre.push(f)[i] == bpre[i] && bpre.push(f)[j] == bpre[j]);
                            } else if i < bpre.len() {
                                assert(bpre.push(f)[i] == bpre[i] && bpre.push(f)[j] == f);
                            } else {
                                assert(bpre.push(f)[i] == f && bpre.push(f)[j] == bpre[j]);
                            }
                        }
                        // the representative is the largest member of its
                        // orbit: a larger sector member would sit earlier in
                        // the descending scan, already covered, and its
                        // coverer would reach this position too
                        assert forall|s2: nat| s2 < nxn * nyn implies #[trigger] walk_step(
                            bb.0 as nat,
                            nxn,
                            nyn,
                            s2,
                        ) <= bb.0 by {
                            let w = walk_step(bb.0 as nat, nxn, nyn, s2);
                            if w > bb.0 {
                                crate::bloch::lemma_walk_step_popcount(bb.0 as nat, nxn, nyn, s2);
                                crate::bloch::lemma_walk_step_bound(bb.0 as nat, nxn, nyn, s2);
                                assert(popcount(bb.0 as nat) == nup);
                                assert(popcount(w) == nup);
                                let qw = choose|qw: int|
                                    0 <= qw < list@.len() && (#[trigger] list@[qw]).0 == w;
                                assert(qw != p as int);
                                if qw > p as int {
                                    assert(list@[p as int].0 > list@[qw].0);
                                    assert(false);
                                }
                                assert(sector_covered(prev, nxn, nyn, w));
                                let t = choose|t: int|
                                    0 <= t < prev.len() && walk_contains(
                                        #[trigger] prev[t],
                                        nxn,
                                        nyn,
                                        w,
                                    );
                                assert(prev[t] < pow2(nxn * nyn));
                                assert(walk_contains(bb.0 as nat, nxn, nyn, w));
                                lemma_walk_contains_sym(bb.0 as nat, w, nxn, nyn);
                                crate::bloch::lemma_walk_contains_trans(
                                    prev[t],
                                    w,
                                    bb.0 as nat,
                                    nxn,
                                    nyn,
                                );
                                assert(sector_covered(prev, nxn, nyn, list@[p as int].0 as nat));
                                assert(false);
                            }
                        }
                        assert forall|i: int, s2: nat|
                            0 <= i < bpre.len() + 1 && s2 < nxn * nyn implies #[trigger] walk_step(
                            bpre.push(f)[i].lead.0 as nat,
                            nxn,
                            nyn,
                            s2,
                        ) <= bpre.push(f)[i].lead.0 by {
                            if i < bpre.len() {
                                assert(bpre.push(f)[i] == bpre[i]);
                            } else {
                                assert(bpre.push(f)[i] == f);
                            }
                        }
                        assert forall|t: int|
                            0 <= t < processed.len() && survives(
                                #[trigger] processed[t],
                                nxn,
                                nyn,
                                kxn,
                                kyn,
                            ) implies has_lead(bpre.push(f), processed[t]) by {
                            if t < processed.len() - 1 {
                                assert(processed[t] == prev[t]);
                                let i0 = choose|i0: int|
                                    0 <= i0 < bpre.len() && (#[trigger] bpre[i0]).lead.0
                                        == prev[t];
                                assert(bpre.push(f)[i0].lead.0 == processed[t]);
                            } else {
                                assert(processed[t] == bb.0 as nat);
                                assert(bpre.push(f)[bpre.len() as int].lead.0 == bb.0);
                            }
                        }
                        if p == 0 {
                            assert(bpre.push(f)[bpre.len() as int].lead.0 == list@[0].0);
                            assert(has_lead(bpre.push(f), list@[0].0 as nat));
                        } else if survives(list@[0].0 as nat, nxn, nyn, kxn, kyn) {
                            let i0 = choose|i0: int|
                                0 <= i0 < bpre.len() && (#[trigger] bpre[i0]).lead.0 == list@[0].0;
                            assert(bpre.push(f)[i0].lead.0 == list@[0].0);
                            assert(has_lead(bpre.push(f), list@[0].0 as nat));
                        }
                    }
                    bfuncs.push(f);
                },
                None => {
                    proof {
                        assert(!survives(bb.0 as nat, nxn, nyn, kxn, kyn));
                        assert(processed[processed.len() - 1] == bb.0 as nat);
                        assert forall|t: int|
                            0 <= t < processed.len() && survives(
                                #[trigger] processed[t],
                                nxn,
                                nyn,
                                kxn,
                                kyn,
                            ) implies has_lead(bfuncs@, processed[t]) by {
                            assert(t < processed.len() - 1);
                            assert(processed[t] == prev[t]);
                        }
                    }
                },
            }
        }
        p = p + 1;
    }
    let mut table = BlochFuncSet::create(nx, ny, bfuncs);
    let ghost pre = table.funcs@;
    table.sort();
    proof {
        lemma_permutation_keeps_distinct_leads(pre, table.funcs@);
        assert forall|i: int| 0 <= i < table.funcs@.len() implies bloch_wf(
            &(#[trigger] table.funcs@[i]),
            nxn,
            nyn,
            kxn,
            kyn,
        ) && sector_mask(table.funcs@[i].lead.0 as nat, (nxr * nyr) as nat, nup as nat) by {
            assert(table.funcs@.to_multiset().contains(table.funcs@[i]));
            assert(pre.to_multiset().contains(table.funcs@[i]));
            assert(pre.contains(table.funcs@[i]));
            let i1 = choose|i1: int| 0 <= i1 < pre.len() && pre[i1] == table.funcs@[i];
            assert(bloch_wf(&pre[i1], nxn, nyn, kxn, kyn));
        }
        // the pairwise-orbit and top-representative clauses survive the sort
        assert forall|i: int, j: int|
            0 <= i < table.funcs@.len() && 0 <= j < table.funcs@.len() && i != j
            implies !walk_contains(
            (#[trigger] table.funcs@[i]).lead.0 as nat,
            nxn,
            nyn,
            (#[trigger] table.funcs@[j]).lead.0 as nat,
        ) by {
            assert(table.funcs@.contains(table.funcs@[i]));
            assert(table.funcs@.contains(table.funcs@[j]));
            assert(table.funcs@.to_multiset().count(table.funcs@[i]) > 0);
            assert(table.funcs@.to_multiset().count(table.funcs@[j]) > 0);
            assert(pre.to_multiset().count(table.funcs@[i]) > 0);
            assert(pre.to_multiset().count(table.funcs@[j]) > 0);
            assert(pre.contains(table.funcs@[i]));
            assert(pre.contains(table.funcs@[j]));
            let i1 = choose|i1: int| 0 <= i1 < pre.len() && pre[i1] == table.funcs@[i];
            let i2 = choose|i2: int| 0 <= i2 < pre.len() && pre[i2] == table.funcs@[j];
            if i < j {
                assert(table.funcs@[i].lead.0 != table.funcs@[j].lead.0);
            } else {
                assert(table.funcs@[j].lead.0 != table.funcs@[i].lead.0);
            }
            assert(i1 != i2);
        }
        // every sector configuration is reached by some processed orbit:
        // it sits in the complete enumeration, whose positions all ended
        // marked, and marking records a covering representative
        assert forall|m: nat|
            m < pow2((nxr * nyr) as nat) && #[trigger] popcount(m) == nup
            implies crate::k::emitted_covers(table.funcs@, nxn, nyn, m) || (exists|l: nat|
            l < pow2((nxr * nyr) as nat) && popcount(l) == nup && !survives(l, nxn, nyn, kxn, kyn)
                && walk_contains(l, nxn, nyn, m)) by {
            let q = choose|q: int| 0 <= q < list@.len() && (#[trigger] list@[q]).0 == m;
            assert(!sieve@[q]);
            let t = choose|t: int|
                0 <= t < processed.len() && walk_contains(
                    #[trigger] processed[t],
                    nxn,
                    nyn,
                    list@[q].0 as nat,
                );
            let l = processed[t];
            if survives(l, nxn, nyn, kxn, kyn) {
                assert(has_lead(pre, l));
                let i0 = choose|i0: int| 0 <= i0 < pre.len() && (#[trigger] pre[i0]).lead.0 == l;
                assert(pre.contains(pre[i0]));
                assert(pre.to_multiset().count(pre[i0]) > 0);
                assert(table.funcs@.to_multiset().count(pre[i0]) > 0);
                assert(table.funcs@.contains(pre[i0]));
                let j0 = choose|j0: int|
                    0 <= j0 < table.funcs@.len() && table.funcs@[j0] == pre[i0];
                assert(walk_contains(table.funcs@[j0].lead.0 as nat, nxn, nyn, m));
                assert(crate::k::emitted_covers(table.funcs@, nxn, nyn, m));
            } else {
                assert(l < pow2((nxr * nyr) as nat) && popcount(l) == nup && !survives(
                    l,
                    nxn,
                    nyn,
                    kxn,
                    kyn,
                ) && walk_contains(l, nxn, nyn, m));
            }
        }
        assert forall|i: int, s2: nat|
            0 <= i < table.funcs@.len() && s2 < nxr * nyr implies #[trigger] walk_step(
            table.funcs@[i].lead.0 as nat,
            nxn,
            nyn,
            s2,
        ) <= table.funcs@[i].lead.0 by {
            assert(table.funcs@.contains(table.funcs@[i]));
            assert(table.funcs@.to_multiset().count(table.funcs@[i]) > 0);
            assert(pre.to_multiset().count(table.funcs@[i]) > 0);
            assert(pre.contains(table.funcs@[i]));
            let i1 = choose|i1: int| 0 <= i1 < pre.len() && pre[i1] == table.funcs@[i];
            assert(walk_step(pre[i1].lead.0 as nat, nxn, nyn, s2) <= pre[i1].lead.0);
        }
        let top = (pow2((nxr * nyr) as nat) - pow2(((nxr * nyr) - nup) as nat)) as nat;
        assert(list@[0].0 as nat == top);
        if survives(top, nxn, nyn, kxn, kyn) {
            assert(has_lead(pre, top));
            let i0 = choose|i0: int| 0 <= i0 < pre.len() && (#[trigger] pre[i0]).lead.0 == top;
            assert(pre.contains(pre[i0]));
            assert(pre.to_multiset().count(pre[i0]) > 0);
            assert(table.funcs@.to_multiset().count(pre[i0]) > 0);
            assert(table.funcs@.contains(pre[i0]));
            let j0 = choose|j0: int| 0 <= j0 < table.funcs@.len() && table.funcs@[j0] == pre[i0];
            assert(table.funcs@[j0].lead.0 == top);
            assert(has_lead(table.funcs@, top));
        }
    }
    table
}

} // verus!
