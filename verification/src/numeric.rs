//! Fixed-point arithmetic shared by the whole crate.
//!
//! Quantities are held as integers in fixed units: power in kW, energy in
//! kWh, prices in thousandths of a dollar per MWh (which is the same as
//! millionths of a dollar per kWh), money in millionths of a dollar,
//! efficiencies and other ratios in parts per million, clock time in whole
//! minutes since 1970-01-01T00:00Z. Every division rounds toward negative
//! infinity, which is what `/` means on `int` for a positive divisor.

use vstd::prelude::*;
use vstd::arithmetic::div_mod::lemma_fundamental_div_mod_converse;
use vstd::arithmetic::div_mod::lemma_fundamental_div_mod;
use vstd::arithmetic::div_mod::lemma_mod_bound;
use vstd::set_lib::lemma_int_range;
use vstd::set_lib::lemma_len_subset;
use vstd::set_lib::lemma_subset_equality;
use vstd::set_lib::set_int_range;

verus! {

/// The largest `r` with `r * r <= n`.
pub open spec fn is_floor_sqrt(n: int, r: int) -> bool {
    0 <= r && r * r <= n && n < (r + 1) * (r + 1)
}

/// `x` lies between `lo` and `hi`, both included.
pub open spec fn clamp_int(x: int, lo: int, hi: int) -> int {
    if x < lo {
        lo
    } else if x > hi {
        hi
    } else {
        x
    }
}

/// There is exactly one floor square root.
pub proof fn lemma_floor_sqrt_unique(n: int, r1: int, r2: int)
    requires
        is_floor_sqrt(n, r1),
        is_floor_sqrt(n, r2),
    ensures
        r1 == r2,
{
    if r1 < r2 {
        assert((r1 + 1) * (r1 + 1) <= r2 * r2) by (nonlinear_arith)
            requires
                0 <= r1,
                r1 + 1 <= r2,
        ;
    }
    if r2 < r1 {
        assert((r2 + 1) * (r2 + 1) <= r1 * r1) by (nonlinear_arith)
            requires
                0 <= r2,
                r2 + 1 <= r1,
        ;
    }
}

/// A mean of values of a range lies in the range.
pub proof fn lemma_mean_in_range(sum: int, count: int, lo: int, hi: int)
    requires
        count > 0,
        count * lo <= sum <= count * hi,
    ensures
        lo <= sum / count <= hi,
{
    let q = sum / count;
    lemma_fundamental_div_mod(sum, count);
    lemma_mod_bound(sum, count);
    if q < lo {
        assert(count * q + count <= count * lo) by (nonlinear_arith)
            requires
                count > 0,
                q + 1 <= lo,
        ;
    }
    if q > hi {
        assert(count * q >= count * hi + count) by (nonlinear_arith)
            requires
                count > 0,
                q >= hi + 1,
        ;
    }
}

/// Quotient rounded toward negative infinity.
pub fn floor_div(a: i128, d: i128) -> (q: i128)
    requires
        d > 0,
    ensures
        q == a / d,
{
    if a >= 0 {
        a / d
    } else {
        let m: i128 = -(a + 1);
        let q0: i128 = m / d;
        let r0: i128 = m % d;
        proof {
            lemma_fundamental_div_mod(m as int, d as int);
            lemma_mod_bound(m as int, d as int);
            assert(a == (-q0 - 1) * d + (d - 1 - r0)) by (nonlinear_arith)
                requires
                    m == d * q0 + r0,
                    a == -m - 1,
            ;
            lemma_fundamental_div_mod_converse(a as int, d as int, -q0 - 1, d - 1 - r0);
        }
        -q0 - 1
    }
}

/// Remainder that goes with [`floor_div`]: always in `0..d`.
pub fn floor_mod(a: i128, d: i128) -> (r: i128)
    requires
        d > 0,
    ensures
        r == a % d,
        0 <= r < d,
{
    if a >= 0 {
        proof {
            lemma_mod_bound(a as int, d as int);
        }
        a % d
    } else {
        let m: i128 = -(a + 1);
        let q0: i128 = m / d;
        let r0: i128 = m % d;
        proof {
            lemma_fundamental_div_mod(m as int, d as int);
            lemma_mod_bound(m as int, d as int);
            assert(a == (-q0 - 1) * d + (d - 1 - r0)) by (nonlinear_arith)
                requires
                    m == d * q0 + r0,
                    a == -m - 1,
            ;
            lemma_fundamental_div_mod_converse(a as int, d as int, -q0 - 1, d - 1 - r0);
        }
        d - 1 - r0
    }
}

/// Integer square root, rounded down.
pub fn isqrt(n: u64) -> (r: u32)
    ensures
        is_floor_sqrt(n as int, r as int),
{
    let mut lo: u64 = 0;
    let mut hi: u64 = 0x1_0000_0000;
    assert(0x1_0000_0000int * 0x1_0000_0000int > n) by (nonlinear_arith)
        requires
            n <= 0xffff_ffff_ffff_ffff,
    ;
    while hi - lo > 1
        invariant
            lo < hi <= 0x1_0000_0000,
            lo * lo <= n,
            n < hi * hi,
        decreases hi - lo,
    {
        let mid: u64 = lo + (hi - lo) / 2;
        assert(mid * mid < 0x1_0000_0000int * 0x1_0000_0000int) by (nonlinear_arith)
            requires
                0 <= mid < 0x1_0000_0000,
        ;
        if mid * mid <= n {
            lo = mid;
        } else {
            hi = mid;
        }
    }
    lo as u32
}

/// Sum of the members of `s`.
pub open spec fn seq_sum(s: Seq<int>) -> int
    decreases s.len(),
{
    if s.len() == 0 {
        0
    } else {
        seq_sum(s.drop_last()) + s.last()
    }
}

/// A sequence of distinct integers drawn from `lo..hi` is no longer than the
/// range, and when it is as long as the range it holds every member.
pub proof fn lemma_distinct_in_range(s: Seq<int>, lo: int, hi: int)
    requires
        lo <= hi,
        s.no_duplicates(),
        forall|i: int| 0 <= i < s.len() ==> lo <= #[trigger] s[i] < hi,
    ensures
        s.len() <= hi - lo,
        s.len() == hi - lo ==> forall|x: int| lo <= x < hi ==> s.contains(x),
{
    let range = set_int_range(lo, hi);
    lemma_int_range(lo, hi);
    s.unique_seq_to_set();
    assert(s.to_set().subset_of(range)) by {
        assert forall|x: int| s.to_set().contains(x) implies range.contains(x) by {
            let i = choose|i: int| 0 <= i < s.len() && s[i] == x;
            assert(lo <= s[i] < hi);
        }
    }
    lemma_len_subset(s.to_set(), range);
    if s.len() == hi - lo {
        lemma_subset_equality(s.to_set(), range);
        assert forall|x: int| lo <= x < hi implies s.contains(x) by {
            assert(range.contains(x));
            assert(s.to_set().contains(x));
        }
    }
}

} // verus!
