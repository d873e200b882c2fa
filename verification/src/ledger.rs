//! Revenue by stream, and the grouping of revenue entries by resource and
//! period that the daily, monthly and annual rollups share.

use std::collections::HashMap;
use vstd::hash_map::StringHashMap;
use vstd::prelude::*;
use crate::text::lemma_lex_irreflexive;
use crate::text::lemma_lex_total;
use crate::text::lemma_lex_transitive;
use crate::text::lex_lt;
use crate::text::str_lt;

verus! {

/// Sum of `f` over the members of `s`.
pub open spec fn sum_by<T>(s: Seq<T>, f: spec_fn(T) -> int) -> int
    decreases s.len(),
{
    if s.len() == 0 {
        0
    } else {
        sum_by(s.drop_last(), f) + f(s.last())
    }
}

/// Appending a member adds its term.
pub proof fn lemma_sum_by_push<T>(s: Seq<T>, x: T, f: spec_fn(T) -> int)
    ensures
        sum_by(s.push(x), f) == sum_by(s, f) + f(x),
{
    assert(s.push(x).drop_last() =~= s);
}

/// The sum over one more member of a prefix.
pub proof fn lemma_sum_by_take<T>(s: Seq<T>, i: int, f: spec_fn(T) -> int)
    requires
        0 <= i < s.len(),
    ensures
        sum_by(s.take(i + 1), f) == sum_by(s.take(i), f) + f(s[i]),
{
    assert(s.take(i + 1).drop_last() =~= s.take(i));
}

/// Replacing a member replaces its term.
pub proof fn lemma_sum_by_update<T>(s: Seq<T>, j: int, x: T, f: spec_fn(T) -> int)
    requires
        0 <= j < s.len(),
    ensures
        sum_by(s.update(j, x), f) == sum_by(s, f) - f(s[j]) + f(x),
    decreases s.len(),
{
    if j == s.len() - 1 {
        assert(s.update(j, x).drop_last() =~= s.drop_last());
    } else {
        lemma_sum_by_update(s.drop_last(), j, x, f);
        assert(s.update(j, x).drop_last() =~= s.drop_last().update(j, x));
    }
}

/// Where no term is negative, no term and no sum over a prefix exceeds the
/// whole sum.
pub proof fn lemma_sum_by_nonnegative<T>(s: Seq<T>, f: spec_fn(T) -> int)
    requires
        forall|i: int| 0 <= i < s.len() ==> f(#[trigger] s[i]) >= 0,
    ensures
        sum_by(s, f) >= 0,
        forall|i: int| 0 <= i < s.len() ==> f(#[trigger] s[i]) <= sum_by(s, f),
        forall|n: int| 0 <= n <= s.len() ==> 0 <= sum_by(#[trigger] s.take(n), f) <= sum_by(s, f),
    decreases s.len(),
{
    if s.len() > 0 {
        let rest = s.drop_last();
        assert forall|i: int| 0 <= i < rest.len() implies f(#[trigger] rest[i]) >= 0 by {
            assert(rest[i] == s[i]);
        }
        lemma_sum_by_nonnegative(rest, f);
        assert forall|i: int| 0 <= i < s.len() implies f(#[trigger] s[i]) <= sum_by(s, f) by {
            if i < rest.len() {
                assert(rest[i] == s[i]);
            }
        }
        assert forall|n: int| 0 <= n <= s.len() implies 0 <= sum_by(#[trigger] s.take(n), f)
            <= sum_by(s, f) by {
            if n == s.len() {
                assert(s.take(n) =~= s);
            } else {
                assert(s.take(n) =~= rest.take(n));
            }
        }
    } else {
        assert forall|n: int| 0 <= n <= s.len() implies 0 <= sum_by(#[trigger] s.take(n), f)
            <= sum_by(s, f) by {
            assert(s.take(n) =~= s);
        }
    }
}

/// Where no term is negative, two terms at different places together do not
/// exceed the sum.
pub proof fn lemma_sum_by_two<T>(s: Seq<T>, i: int, j: int, f: spec_fn(T) -> int)
    requires
        forall|m: int| 0 <= m < s.len() ==> f(#[trigger] s[m]) >= 0,
        0 <= i < j < s.len(),
    ensures
        f(s[i]) + f(s[j]) <= sum_by(s, f),
    decreases s.len(),
{
    let rest = s.drop_last();
    assert forall|m: int| 0 <= m < rest.len() implies f(#[trigger] rest[m]) >= 0 by {
        assert(rest[m] == s[m]);
    }
    lemma_sum_by_nonnegative(rest, f);
    if j == s.len() - 1 {
        assert(rest[i] == s[i]);
    } else {
        lemma_sum_by_two(rest, i, j, f);
        assert(rest[i] == s[i] && rest[j] == s[j]);
        assert(f(s[s.len() - 1]) >= 0);
    }
}

/// Where every term but one is zero, the sum is that term.
pub proof fn lemma_sum_by_single<T>(s: Seq<T>, j: int, f: spec_fn(T) -> int)
    requires
        0 <= j < s.len(),
        forall|i: int| 0 <= i < s.len() && i != j ==> f(#[trigger] s[i]) == 0,
    ensures
        sum_by(s, f) == f(s[j]),
    decreases s.len(),
{
    let rest = s.drop_last();
    if j == s.len() - 1 {
        assert forall|i: int| 0 <= i < rest.len() implies f(#[trigger] rest[i]) == 0 by {
            assert(rest[i] == s[i]);
        }
        lemma_sum_by_zero(rest, f);
    } else {
        assert forall|i: int| 0 <= i < rest.len() && i != j implies f(#[trigger] rest[i]) == 0 by {
            assert(rest[i] == s[i]);
        }
        lemma_sum_by_single(rest, j, f);
        assert(rest[j] == s[j]);
    }
}

/// Where every term is zero, so is the sum.
pub proof fn lemma_sum_by_zero<T>(s: Seq<T>, f: spec_fn(T) -> int)
    requires
        forall|i: int| 0 <= i < s.len() ==> f(#[trigger] s[i]) == 0,
    ensures
        sum_by(s, f) == 0,
    decreases s.len(),
{
    if s.len() > 0 {
        let rest = s.drop_last();
        assert forall|i: int| 0 <= i < rest.len() implies f(#[trigger] rest[i]) == 0 by {
            assert(rest[i] == s[i]);
        }
        lemma_sum_by_zero(rest, f);
    }
}

/// Two sequences whose terms agree place by place give the same sum.
pub proof fn lemma_sum_by_pairwise<T, U>(
    s: Seq<T>,
    t: Seq<U>,
    f: spec_fn(T) -> int,
    g: spec_fn(U) -> int,
)
    requires
        s.len() == t.len(),
        forall|i: int| 0 <= i < s.len() ==> f(#[trigger] s[i]) == g(t[i]),
    ensures
        sum_by(s, f) == sum_by(t, g),
    decreases s.len(),
{
    if s.len() > 0 {
        let rest_s = s.drop_last();
        let rest_t = t.drop_last();
        assert forall|i: int| 0 <= i < rest_s.len() implies f(#[trigger] rest_s[i]) == g(
            rest_t[i],
        ) by {
            assert(rest_s[i] == s[i]);
            assert(rest_t[i] == t[i]);
        }
        lemma_sum_by_pairwise(rest_s, rest_t, f, g);
        assert(f(s[s.len() - 1]) == g(t[s.len() - 1]));
    }
}

/// The sum over two sequences joined is the sum of their sums.
pub proof fn lemma_sum_by_concat<T>(s: Seq<T>, t: Seq<T>, f: spec_fn(T) -> int)
    ensures
        sum_by(s + t, f) == sum_by(s, f) + sum_by(t, f),
    decreases t.len(),
{
    if t.len() == 0 {
        assert(s + t =~= s);
    } else {
        lemma_sum_by_concat(s, t.drop_last(), f);
        assert((s + t).drop_last() =~= s + t.drop_last());
        assert((s + t).last() == t.last());
    }
}

/// Where every term is at most `bound` in size, the sum is at most the
/// length times `bound`.
pub proof fn lemma_sum_by_bounded<T>(s: Seq<T>, f: spec_fn(T) -> int, bound: int)
    requires
        forall|i: int| 0 <= i < s.len() ==> -bound <= f(#[trigger] s[i]) <= bound,
    ensures
        -(s.len() * bound) <= sum_by(s, f) <= s.len() * bound,
    decreases s.len(),
{
    if s.len() > 0 {
        let rest = s.drop_last();
        assert forall|i: int| 0 <= i < rest.len() implies -bound <= f(#[trigger] rest[i])
            <= bound by {
            assert(rest[i] == s[i]);
        }
        lemma_sum_by_bounded(rest, f, bound);
        assert(s.len() * bound == rest.len() * bound + bound) by (nonlinear_arith)
            requires
                rest.len() == s.len() - 1,
        ;
    }
}

/// Two term functions that agree on every member give the same sum.
pub proof fn lemma_sum_by_agree<T>(s: Seq<T>, f: spec_fn(T) -> int, g: spec_fn(T) -> int)
    requires
        forall|i: int| 0 <= i < s.len() ==> f(#[trigger] s[i]) == g(s[i]),
    ensures
        sum_by(s, f) == sum_by(s, g),
    decreases s.len(),
{
    if s.len() > 0 {
        let rest = s.drop_last();
        assert forall|i: int| 0 <= i < rest.len() implies f(#[trigger] rest[i]) == g(rest[i]) by {
            assert(rest[i] == s[i]);
        }
        lemma_sum_by_agree(rest, f, g);
    }
}

/// Size of a number.
#[verifier::opaque]
pub open spec fn abs(x: int) -> int {
    if x >= 0 {
        x
    } else {
        -x
    }
}

/// A size is not negative and is the number or its opposite.
pub proof fn lemma_abs(x: int)
    ensures
        abs(x) >= 0,
        abs(x) >= x,
        abs(x) >= -x,
        abs(x) == x || abs(x) == -x,
{
    reveal(abs);
}

/// The size of a sum is at most the sum of the sizes.
pub proof fn lemma_abs_sum(x: int, y: int)
    ensures
        abs(x + y) <= abs(x) + abs(y),
{
    reveal(abs);
}

/// The sizes of the eight streams, each at least zero.
pub proof fn lemma_stream_sizes(t: StreamTotals)
    ensures
        abs(t.dam_charge_cost) >= 0 && abs(t.dam_discharge_revenue) >= 0 && abs(t.rt_energy_revenue)
            >= 0 && abs(t.reg_up_revenue) >= 0 && abs(t.reg_down_revenue) >= 0 && abs(t.rrs_revenue)
            >= 0 && abs(t.ecrs_revenue) >= 0 && abs(t.non_spin_revenue) >= 0,
        abs(t.dam_charge_cost) >= t.dam_charge_cost && abs(t.dam_charge_cost) >= -t.dam_charge_cost,
        abs(t.dam_discharge_revenue) >= t.dam_discharge_revenue && abs(t.dam_discharge_revenue)
            >= -t.dam_discharge_revenue,
        abs(t.rt_energy_revenue) >= t.rt_energy_revenue && abs(t.rt_energy_revenue)
            >= -t.rt_energy_revenue,
        abs(t.reg_up_revenue) >= t.reg_up_revenue && abs(t.reg_up_revenue) >= -t.reg_up_revenue,
        abs(t.reg_down_revenue) >= t.reg_down_revenue && abs(t.reg_down_revenue)
            >= -t.reg_down_revenue,
        abs(t.rrs_revenue) >= t.rrs_revenue && abs(t.rrs_revenue) >= -t.rrs_revenue,
        abs(t.ecrs_revenue) >= t.ecrs_revenue && abs(t.ecrs_revenue) >= -t.ecrs_revenue,
        abs(t.non_spin_revenue) >= t.non_spin_revenue && abs(t.non_spin_revenue)
            >= -t.non_spin_revenue,
        t.magnitude() >= 0,
        abs(t.total()) <= t.magnitude(),
        abs(t.energy()) <= t.magnitude(),
        abs(t.ancillary()) <= t.magnitude(),
{
    lemma_abs(t.dam_charge_cost);
    lemma_abs(t.dam_discharge_revenue);
    lemma_abs(t.rt_energy_revenue);
    lemma_abs(t.reg_up_revenue);
    lemma_abs(t.reg_down_revenue);
    lemma_abs(t.rrs_revenue);
    lemma_abs(t.ecrs_revenue);
    lemma_abs(t.non_spin_revenue);
    lemma_abs(t.total());
    lemma_abs(t.energy());
    lemma_abs(t.ancillary());
}

/// The magnitude of a sum of streams is at most the sum of the magnitudes.
pub proof fn lemma_magnitude_of_sum(a: StreamTotals, b: StreamTotals)
    ensures
        a.plus(b).magnitude() <= a.magnitude() + b.magnitude(),
{
    lemma_abs_sum(a.dam_charge_cost, b.dam_charge_cost);
    lemma_abs_sum(a.dam_discharge_revenue, b.dam_discharge_revenue);
    lemma_abs_sum(a.rt_energy_revenue, b.rt_energy_revenue);
    lemma_abs_sum(a.reg_up_revenue, b.reg_up_revenue);
    lemma_abs_sum(a.reg_down_revenue, b.reg_down_revenue);
    lemma_abs_sum(a.rrs_revenue, b.rrs_revenue);
    lemma_abs_sum(a.ecrs_revenue, b.ecrs_revenue);
    lemma_abs_sum(a.non_spin_revenue, b.non_spin_revenue);
}

/// Number of revenue streams.
pub const STREAMS: usize = 8;

/// Revenue by stream as exact integers, millionths of a dollar.
pub struct StreamTotals {
    pub dam_charge_cost: int,
    pub dam_discharge_revenue: int,
    pub rt_energy_revenue: int,
    pub reg_up_revenue: int,
    pub reg_down_revenue: int,
    pub rrs_revenue: int,
    pub ecrs_revenue: int,
    pub non_spin_revenue: int,
}

impl StreamTotals {
    /// Nothing in any stream.
    pub open spec fn zero() -> StreamTotals {
        StreamTotals {
            dam_charge_cost: 0,
            dam_discharge_revenue: 0,
            rt_energy_revenue: 0,
            reg_up_revenue: 0,
            reg_down_revenue: 0,
            rrs_revenue: 0,
            ecrs_revenue: 0,
            non_spin_revenue: 0,
        }
    }

    /// Stream number `k`, counted from zero in the order of the fields.
    pub open spec fn stream(self, k: int) -> int {
        if k == 0 {
            self.dam_charge_cost
        } else if k == 1 {
            self.dam_discharge_revenue
        } else if k == 2 {
            self.rt_energy_revenue
        } else if k == 3 {
            self.reg_up_revenue
        } else if k == 4 {
            self.reg_down_revenue
        } else if k == 5 {
            self.rrs_revenue
        } else if k == 6 {
            self.ecrs_revenue
        } else if k == 7 {
            self.non_spin_revenue
        } else {
            0
        }
    }

    /// `amount` in stream number `k`, nothing in the others.
    pub open spec fn single(k: int, amount: int) -> StreamTotals {
        StreamTotals {
            dam_charge_cost: if k == 0 {
                amount
            } else {
                0
            },
            dam_discharge_revenue: if k == 1 {
                amount
            } else {
                0
            },
            rt_energy_revenue: if k == 2 {
                amount
            } else {
                0
            },
            reg_up_revenue: if k == 3 {
                amount
            } else {
                0
            },
            reg_down_revenue: if k == 4 {
                amount
            } else {
                0
            },
            rrs_revenue: if k == 5 {
                amount
            } else {
                0
            },
            ecrs_revenue: if k == 6 {
                amount
            } else {
                0
            },
            non_spin_revenue: if k == 7 {
                amount
            } else {
                0
            },
        }
    }

    /// Stream by stream sum.
    pub open spec fn plus(self, other: StreamTotals) -> StreamTotals {
        StreamTotals {
            dam_charge_cost: self.dam_charge_cost + other.dam_charge_cost,
            dam_discharge_revenue: self.dam_discharge_revenue + other.dam_discharge_revenue,
            rt_energy_revenue: self.rt_energy_revenue + other.rt_energy_revenue,
            reg_up_revenue: self.reg_up_revenue + other.reg_up_revenue,
            reg_down_revenue: self.reg_down_revenue + other.reg_down_revenue,
            rrs_revenue: self.rrs_revenue + other.rrs_revenue,
            ecrs_revenue: self.ecrs_revenue + other.ecrs_revenue,
            non_spin_revenue: self.non_spin_revenue + other.non_spin_revenue,
        }
    }

    /// Net day-ahead energy revenue: what discharging earned less what
    /// charging cost.
    pub open spec fn dam_energy(self) -> int {
        self.dam_charge_cost + self.dam_discharge_revenue
    }

    /// Energy revenue of both markets.
    pub open spec fn energy(self) -> int {
        self.dam_energy() + self.rt_energy_revenue
    }

    /// Revenue of the five ancillary services.
    pub open spec fn ancillary(self) -> int {
        self.reg_up_revenue + self.reg_down_revenue + self.rrs_revenue + self.ecrs_revenue
            + self.non_spin_revenue
    }

    /// Revenue of all streams.
    pub open spec fn total(self) -> int {
        self.energy() + self.ancillary()
    }

    /// Sum of the sizes of all streams.
    pub open spec fn magnitude(self) -> int {
        abs(self.dam_charge_cost) + abs(self.dam_discharge_revenue) + abs(self.rt_energy_revenue)
            + abs(self.reg_up_revenue) + abs(self.reg_down_revenue) + abs(self.rrs_revenue) + abs(
            self.ecrs_revenue,
        ) + abs(self.non_spin_revenue)
    }
}

/// Largest sum of sizes that can still be summed: the largest number of
/// the type that holds a stream.
pub const MAX_SUMMABLE: u128 = 0x7fff_ffff_ffff_ffff_ffff_ffff_ffff_ffff;

/// Size of a number.
pub fn size_of(x: i128) -> (r: u128)
    ensures
        r == abs(x as int),
        r <= 0x8000_0000_0000_0000_0000_0000_0000_0000,
{
    proof {
        reveal(abs);
    }
    if x >= 0 {
        x as u128
    } else if x == i128::MIN {
        0x8000_0000_0000_0000_0000_0000_0000_0000
    } else {
        (-x) as u128
    }
}

/// Revenue by stream, millionths of a dollar.
#[derive(Debug, Clone, Copy, PartialEq, Eq, Structural)]
pub struct RevenueStreams {
    /// Day-ahead awards to charge, times their prices: zero or less.
    pub dam_charge_cost: i128,
    /// Day-ahead awards to discharge, times their prices.
    pub dam_discharge_revenue: i128,
    pub rt_energy_revenue: i128,
    pub reg_up_revenue: i128,
    pub reg_down_revenue: i128,
    pub rrs_revenue: i128,
    pub ecrs_revenue: i128,
    pub non_spin_revenue: i128,
}

impl View for RevenueStreams {
    type V = StreamTotals;

    open spec fn view(&self) -> StreamTotals {
        StreamTotals {
            dam_charge_cost: self.dam_charge_cost as int,
            dam_discharge_revenue: self.dam_discharge_revenue as int,
            rt_energy_revenue: self.rt_energy_revenue as int,
            reg_up_revenue: self.reg_up_revenue as int,
            reg_down_revenue: self.reg_down_revenue as int,
            rrs_revenue: self.rrs_revenue as int,
            ecrs_revenue: self.ecrs_revenue as int,
            non_spin_revenue: self.non_spin_revenue as int,
        }
    }
}

impl RevenueStreams {
    /// The sum of the sizes of the streams fits the integer type, so that
    /// every sum of streams does.
    pub open spec fn summable(&self) -> bool {
        self@.magnitude() <= i128::MAX
    }

    /// Nothing in any stream.
    pub fn zero() -> (r: Self)
        ensures
            r@ == StreamTotals::zero(),
    {
        RevenueStreams {
            dam_charge_cost: 0,
            dam_discharge_revenue: 0,
            rt_energy_revenue: 0,
            reg_up_revenue: 0,
            reg_down_revenue: 0,
            rrs_revenue: 0,
            ecrs_revenue: 0,
            non_spin_revenue: 0,
        }
    }

    /// `amount` in stream number `k`, nothing in the others.
    pub fn single(k: usize, amount: i128) -> (r: Self)
        requires
            k < STREAMS,
        ensures
            r@ == StreamTotals::single(k as int, amount as int),
            r@.magnitude() == abs(amount as int),
    {
        proof {
            lemma_abs(0);
            lemma_abs(amount as int);
        }
        let mut r: RevenueStreams = Self::zero();
        if k == 0 {
            r.dam_charge_cost = amount;
        } else if k == 1 {
            r.dam_discharge_revenue = amount;
        } else if k == 2 {
            r.rt_energy_revenue = amount;
        } else if k == 3 {
            r.reg_up_revenue = amount;
        } else if k == 4 {
            r.reg_down_revenue = amount;
        } else if k == 5 {
            r.rrs_revenue = amount;
        } else if k == 6 {
            r.ecrs_revenue = amount;
        } else {
            r.non_spin_revenue = amount;
        }
        r
    }

    /// Stream by stream sum.
    pub fn plus(&self, other: &Self) -> (r: Self)
        requires
            self@.magnitude() + other@.magnitude() <= i128::MAX,
        ensures
            r@ == self@.plus(other@),
            r@.magnitude() <= self@.magnitude() + other@.magnitude(),
    {
        proof {
            lemma_stream_sizes(self@);
            lemma_stream_sizes(other@);
            lemma_magnitude_of_sum(self@, other@);
        }
        RevenueStreams {
            dam_charge_cost: self.dam_charge_cost + other.dam_charge_cost,
            dam_discharge_revenue: self.dam_discharge_revenue + other.dam_discharge_revenue,
            rt_energy_revenue: self.rt_energy_revenue + other.rt_energy_revenue,
            reg_up_revenue: self.reg_up_revenue + other.reg_up_revenue,
            reg_down_revenue: self.reg_down_revenue + other.reg_down_revenue,
            rrs_revenue: self.rrs_revenue + other.rrs_revenue,
            ecrs_revenue: self.ecrs_revenue + other.ecrs_revenue,
            non_spin_revenue: self.non_spin_revenue + other.non_spin_revenue,
        }
    }

    /// The sum of the sizes of the streams, where it fits the type that
    /// holds the streams; none where it does not.
    pub fn checked_magnitude(&self) -> (m: Option<u128>)
        ensures
            match m {
                Some(v) => v == self@.magnitude() && self.summable(),
                None => !self.summable(),
            },
    {
        proof {
            lemma_stream_sizes(self@);
        }
        let s0: u128 = size_of(self.dam_charge_cost);
        if s0 > MAX_SUMMABLE {
            return None;
        }
        let s1: u128 = s0 + size_of(self.dam_discharge_revenue);
        if s1 > MAX_SUMMABLE {
            return None;
        }
        let s2: u128 = s1 + size_of(self.rt_energy_revenue);
        if s2 > MAX_SUMMABLE {
            return None;
        }
        let s3: u128 = s2 + size_of(self.reg_up_revenue);
        if s3 > MAX_SUMMABLE {
            return None;
        }
        let s4: u128 = s3 + size_of(self.reg_down_revenue);
        if s4 > MAX_SUMMABLE {
            return None;
        }
        let s5: u128 = s4 + size_of(self.rrs_revenue);
        if s5 > MAX_SUMMABLE {
            return None;
        }
        let s6: u128 = s5 + size_of(self.ecrs_revenue);
        if s6 > MAX_SUMMABLE {
            return None;
        }
        let s7: u128 = s6 + size_of(self.non_spin_revenue);
        if s7 > MAX_SUMMABLE {
            return None;
        }
        Some(s7)
    }

    /// Whether the streams can be summed.
    pub fn is_summable(&self) -> (r: bool)
        ensures
            r == self.summable(),
    {
        self.checked_magnitude().is_some()
    }

    /// Revenue of all streams where the streams can be summed, none where
    /// they cannot.
    pub fn checked_total(&self) -> (r: Option<i128>)
        ensures
            match r {
                Some(v) => self.summable() && v == self@.total(),
                None => !self.summable(),
            },
    {
        if self.is_summable() {
            Some(self.total_revenue())
        } else {
            None
        }
    }

    /// Energy revenue of both markets where the streams can be summed, none
    /// where they cannot.
    pub fn checked_energy(&self) -> (r: Option<i128>)
        ensures
            match r {
                Some(v) => self.summable() && v == self@.energy(),
                None => !self.summable(),
            },
    {
        if self.is_summable() {
            Some(self.energy_revenue())
        } else {
            None
        }
    }

    /// Net day-ahead energy revenue where the streams can be summed, none
    /// where they cannot.
    pub fn checked_dam_energy(&self) -> (r: Option<i128>)
        ensures
            match r {
                Some(v) => self.summable() && v == self@.dam_energy(),
                None => !self.summable(),
            },
    {
        if self.is_summable() {
            Some(self.dam_energy_revenue())
        } else {
            None
        }
    }

    /// Net day-ahead energy revenue.
    pub fn dam_energy_revenue(&self) -> (r: i128)
        requires
            self.summable(),
        ensures
            r == self@.dam_energy(),
    {
        proof {
            lemma_stream_sizes(self@);
        }
        self.dam_charge_cost + self.dam_discharge_revenue
    }

    /// Energy revenue of both markets.
    pub fn energy_revenue(&self) -> (r: i128)
        requires
            self.summable(),
        ensures
            r == self@.energy(),
    {
        proof {
            lemma_stream_sizes(self@);
        }
        self.dam_charge_cost + self.dam_discharge_revenue + self.rt_energy_revenue
    }

    /// Revenue of the five ancillary services.
    pub fn ancillary_revenue(&self) -> (r: i128)
        requires
            self.summable(),
        ensures
            r == self@.ancillary(),
    {
        proof {
            lemma_stream_sizes(self@);
        }
        self.reg_up_revenue + self.reg_down_revenue + self.rrs_revenue + self.ecrs_revenue
            + self.non_spin_revenue
    }

    /// Revenue of all streams. It is computed from the streams each time and
    /// held nowhere.
    pub fn total_revenue(&self) -> (r: i128)
        requires
            self.summable(),
        ensures
            r == self@.total(),
            abs(r as int) <= self@.magnitude(),
    {
        proof {
            lemma_stream_sizes(self@);
        }
        self.dam_charge_cost + self.dam_discharge_revenue + self.rt_energy_revenue
            + self.reg_up_revenue + self.reg_down_revenue + self.rrs_revenue + self.ecrs_revenue
            + self.non_spin_revenue
    }
}

/// The streams `t` in the integer type of the records.
pub open spec fn streams_of(t: StreamTotals) -> RevenueStreams {
    RevenueStreams {
        dam_charge_cost: t.dam_charge_cost as i128,
        dam_discharge_revenue: t.dam_discharge_revenue as i128,
        rt_energy_revenue: t.rt_energy_revenue as i128,
        reg_up_revenue: t.reg_up_revenue as i128,
        reg_down_revenue: t.reg_down_revenue as i128,
        rrs_revenue: t.rrs_revenue as i128,
        ecrs_revenue: t.ecrs_revenue as i128,
        non_spin_revenue: t.non_spin_revenue as i128,
    }
}

/// Revenue of one resource over one period, with the number of records that
/// went into it.
#[derive(Debug)]
pub struct Entry {
    pub resource_name: String,
    /// The period's number: a day, a month or a year, as the caller counts.
    pub period: i64,
    pub streams: RevenueStreams,
    pub count: u64,
}

/// `entry` belongs to the resource `name` and its period is one that `pick`
/// admits.
pub open spec fn selected(entry: Entry, name: Seq<char>, pick: spec_fn(int) -> bool) -> bool {
    entry.resource_name@ == name && pick(entry.period as int)
}

/// Stream `k` of an entry where it is selected, zero elsewhere.
pub open spec fn stream_term(name: Seq<char>, pick: spec_fn(int) -> bool, k: int) -> spec_fn(
    Entry,
) -> int {
    |e: Entry|
        if selected(e, name, pick) {
            e.streams@.stream(k)
        } else {
            0
        }
}

/// The count of an entry where it is selected, zero elsewhere.
pub open spec fn count_term(name: Seq<char>, pick: spec_fn(int) -> bool) -> spec_fn(Entry) -> int {
    |e: Entry|
        if selected(e, name, pick) {
            e.count as int
        } else {
            0
        }
}

/// The magnitude of an entry.
pub open spec fn magnitude_term() -> spec_fn(Entry) -> int {
    |e: Entry| e.streams@.magnitude()
}

/// The count of an entry.
pub open spec fn plain_count_term() -> spec_fn(Entry) -> int {
    |e: Entry| e.count as int
}

/// The one period `period`.
pub open spec fn only(period: int) -> spec_fn(int) -> bool {
    |p: int| p == period
}

/// Revenue by stream of the entries of `name` whose period `pick` admits.
pub open spec fn totals_where(entries: Seq<Entry>, name: Seq<char>, pick: spec_fn(int) -> bool) -> StreamTotals {
    StreamTotals {
        dam_charge_cost: sum_by(entries, stream_term(name, pick, 0)),
        dam_discharge_revenue: sum_by(entries, stream_term(name, pick, 1)),
        rt_energy_revenue: sum_by(entries, stream_term(name, pick, 2)),
        reg_up_revenue: sum_by(entries, stream_term(name, pick, 3)),
        reg_down_revenue: sum_by(entries, stream_term(name, pick, 4)),
        rrs_revenue: sum_by(entries, stream_term(name, pick, 5)),
        ecrs_revenue: sum_by(entries, stream_term(name, pick, 6)),
        non_spin_revenue: sum_by(entries, stream_term(name, pick, 7)),
    }
}

/// Number of records behind the entries of `name` whose period `pick`
/// admits.
pub open spec fn count_where(entries: Seq<Entry>, name: Seq<char>, pick: spec_fn(int) -> bool) -> int {
    sum_by(entries, count_term(name, pick))
}

/// Sum of the magnitudes of all entries.
pub open spec fn ledger_magnitude(entries: Seq<Entry>) -> int {
    sum_by(entries, magnitude_term())
}

/// Sum of the counts of all entries.
pub open spec fn ledger_count(entries: Seq<Entry>) -> int {
    sum_by(entries, plain_count_term())
}

/// The sums over `entries` fit the integer types that hold them.
pub open spec fn summable(entries: Seq<Entry>) -> bool {
    ledger_magnitude(entries) <= i128::MAX && ledger_count(entries) <= u64::MAX
}

/// No two entries share resource and period.
pub open spec fn keys_distinct(entries: Seq<Entry>) -> bool {
    forall|i: int, j: int|
        0 <= i < entries.len() && 0 <= j < entries.len() && i != j ==> !((
        #[trigger] entries[i]).resource_name@ == (#[trigger] entries[j]).resource_name@
            && entries[i].period == entries[j].period)
}

/// Some entry is of resource `name` and period `period`.
pub open spec fn has_key(entries: Seq<Entry>, name: Seq<char>, period: int) -> bool {
    exists|i: int|
        0 <= i < entries.len() && (#[trigger] entries[i]).resource_name@ == name
            && entries[i].period == period
}

/// `grouped` holds the same revenue as `entries`, one entry for each
/// resource and period: whatever resource and set of periods one asks for,
/// both give the same sums and counts.
pub open spec fn groups(grouped: Seq<Entry>, entries: Seq<Entry>) -> bool {
    &&& keys_distinct(grouped)
    &&& forall|name: Seq<char>, pick: spec_fn(int) -> bool, k: int|
        sum_by(grouped, #[trigger] stream_term(name, pick, k)) == sum_by(
            entries,
            stream_term(name, pick, k),
        )
    &&& forall|name: Seq<char>, pick: spec_fn(int) -> bool|
        sum_by(grouped, #[trigger] count_term(name, pick)) == sum_by(
            entries,
            count_term(name, pick),
        )
    &&& forall|i: int|
        0 <= i < grouped.len() ==> has_key(
            entries,
            (#[trigger] grouped[i]).resource_name@,
            grouped[i].period as int,
        )
    &&& forall|i: int|
        0 <= i < entries.len() ==> has_key(
            grouped,
            (#[trigger] entries[i]).resource_name@,
            entries[i].period as int,
        )
    &&& ledger_magnitude(grouped) <= ledger_magnitude(entries)
    &&& ledger_count(grouped) == ledger_count(entries)
}

/// Grouping does not depend on the order in which two batches of entries
/// are put together: what groups one batch followed by the other groups the
/// other followed by the one.
pub proof fn lemma_groups_either_order(grouped: Seq<Entry>, a: Seq<Entry>, b: Seq<Entry>)
    requires
        groups(grouped, a + b),
    ensures
        groups(grouped, b + a),
{
    assert forall|name: Seq<char>, pick: spec_fn(int) -> bool, k: int|
        sum_by(grouped, #[trigger] stream_term(name, pick, k)) == sum_by(
            b + a,
            stream_term(name, pick, k),
        ) by {
        lemma_sum_by_concat(a, b, stream_term(name, pick, k));
        lemma_sum_by_concat(b, a, stream_term(name, pick, k));
        assert(sum_by(grouped, stream_term(name, pick, k)) == sum_by(
            a + b,
            stream_term(name, pick, k),
        ));
    }
    assert forall|name: Seq<char>, pick: spec_fn(int) -> bool|
        sum_by(grouped, #[trigger] count_term(name, pick)) == sum_by(
            b + a,
            count_term(name, pick),
        ) by {
        lemma_sum_by_concat(a, b, count_term(name, pick));
        lemma_sum_by_concat(b, a, count_term(name, pick));
        assert(sum_by(grouped, count_term(name, pick)) == sum_by(a + b, count_term(name, pick)));
    }
    assert forall|i: int| 0 <= i < grouped.len() implies has_key(
        b + a,
        (#[trigger] grouped[i]).resource_name@,
        grouped[i].period as int,
    ) by {
        assert(has_key(a + b, grouped[i].resource_name@, grouped[i].period as int));
        let m = choose|m: int|
            0 <= m < (a + b).len() && (#[trigger] (a + b)[m]).resource_name@
                == grouped[i].resource_name@ && (a + b)[m].period == grouped[i].period;
        if m < a.len() {
            assert((b + a)[b.len() + m] == (a + b)[m]);
        } else {
            assert((b + a)[m - a.len()] == (a + b)[m]);
        }
    }
    assert forall|i: int| 0 <= i < (b + a).len() implies has_key(
        grouped,
        (#[trigger] (b + a)[i]).resource_name@,
        (b + a)[i].period as int,
    ) by {
        if i < b.len() {
            assert((a + b)[a.len() + i] == (b + a)[i]);
            assert(has_key(
                grouped,
                (a + b)[a.len() + i].resource_name@,
                (a + b)[a.len() + i].period as int,
            ));
        } else {
            assert((a + b)[i - b.len()] == (b + a)[i]);
            assert(has_key(
                grouped,
                (a + b)[i - b.len()].resource_name@,
                (a + b)[i - b.len()].period as int,
            ));
        }
    }
    lemma_sum_by_concat(a, b, magnitude_term());
    lemma_sum_by_concat(b, a, magnitude_term());
    lemma_sum_by_concat(a, b, plain_count_term());
    lemma_sum_by_concat(b, a, plain_count_term());
}

/// In a grouping each entry holds the whole revenue and count of its
/// resource and period.
pub proof fn lemma_group_holds_key_total(grouped: Seq<Entry>, entries: Seq<Entry>, i: int)
    requires
        groups(grouped, entries),
        0 <= i < grouped.len(),
    ensures
        grouped[i].streams@ == totals_where(
            entries,
            grouped[i].resource_name@,
            only(grouped[i].period as int),
        ),
        grouped[i].count == count_where(
            entries,
            grouped[i].resource_name@,
            only(grouped[i].period as int),
        ),
{
    let name = grouped[i].resource_name@;
    let pick = only(grouped[i].period as int);
    assert forall|k: int| 0 <= k < 8 implies sum_by(entries, stream_term(name, pick, k))
        == grouped[i].streams@.stream(k) by {
        let f = stream_term(name, pick, k);
        assert forall|m: int| 0 <= m < grouped.len() && m != i implies f(#[trigger] grouped[m])
            == 0 by {}
        lemma_sum_by_single(grouped, i, f);
        assert(sum_by(grouped, stream_term(name, pick, k)) == sum_by(
            entries,
            stream_term(name, pick, k),
        ));
    }
    let totals = totals_where(entries, name, pick);
    assert(totals.dam_charge_cost == grouped[i].streams@.stream(0));
    assert(totals.dam_discharge_revenue == grouped[i].streams@.stream(1));
    assert(totals.rt_energy_revenue == grouped[i].streams@.stream(2));
    assert(totals.reg_up_revenue == grouped[i].streams@.stream(3));
    assert(totals.reg_down_revenue == grouped[i].streams@.stream(4));
    assert(totals.rrs_revenue == grouped[i].streams@.stream(5));
    assert(totals.ecrs_revenue == grouped[i].streams@.stream(6));
    assert(totals.non_spin_revenue == grouped[i].streams@.stream(7));
    let g = count_term(name, pick);
    assert forall|m: int| 0 <= m < grouped.len() && m != i implies g(#[trigger] grouped[m])
        == 0 by {}
    lemma_sum_by_single(grouped, i, g);
    assert(sum_by(grouped, count_term(name, pick)) == sum_by(entries, count_term(name, pick)));
}

/// The number under which the table of places holds name number `at` and
/// `period`.
pub open spec fn place_key(at: int, period: int) -> u128 {
    (at * 0x1_0000_0000_0000_0000 + (period + 0x8000_0000_0000_0000)) as u128
}

/// No name is listed twice.
pub open spec fn names_distinct(names: Seq<String>) -> bool {
    forall|a: int, b: int|
        0 <= a < names.len() && 0 <= b < names.len() && a != b ==> (#[trigger] names[a])@ != (
        #[trigger] names[b])@
}

/// Name number `at` is the name of `entry`, and the table of places holds
/// `place` for that name and the entry's period.
pub open spec fn placed_at(
    names: Seq<String>,
    places: Map<u128, usize>,
    entry: Entry,
    place: int,
    at: int,
) -> bool {
    &&& 0 <= at < names.len()
    &&& names[at]@ == entry.resource_name@
    &&& places.contains_key(place_key(at, entry.period as int))
    &&& places[place_key(at, entry.period as int)] == place
}

/// The names and the table of places lead to every entry, and to nothing
/// else: each entry is found under the number of its name and its period,
/// and every number in the table is that of the entry it leads to.
pub open spec fn leads_to(names: Seq<String>, places: Map<u128, usize>, entries: Seq<Entry>) -> bool {
    &&& names_distinct(names)
    &&& forall|j: int| 0 <= j < entries.len() ==> #[trigger] entry_placed(names, places, entries, j)
    &&& forall|k: u128| #[trigger] places.contains_key(k) ==> key_sound(names, places, entries, k)
}

/// The table of places leads to entry number `j`.
pub open spec fn entry_placed(
    names: Seq<String>,
    places: Map<u128, usize>,
    entries: Seq<Entry>,
    j: int,
) -> bool {
    exists|at: int| #[trigger] placed_at(names, places, entries[j], j, at)
}

/// The number `k` of the table is that of the entry it leads to.
pub open spec fn key_sound(
    names: Seq<String>,
    places: Map<u128, usize>,
    entries: Seq<Entry>,
    k: u128,
) -> bool {
    &&& places[k] < entries.len()
    &&& exists|at: int| #[trigger]
        placed_at(names, places, entries[places[k] as int], places[k] as int, at) && place_key(
            at,
            entries[places[k] as int].period as int,
        ) == k
}

/// Entries that keep their names and periods are led to as before.
proof fn lemma_leads_to_same_keys(
    names: Seq<String>,
    places: Map<u128, usize>,
    before: Seq<Entry>,
    after: Seq<Entry>,
)
    requires
        leads_to(names, places, before),
        after.len() == before.len(),
        forall|j: int|
            0 <= j < before.len() ==> (#[trigger] after[j]).resource_name@
                == before[j].resource_name@ && after[j].period == before[j].period,
    ensures
        leads_to(names, places, after),
{
    assert forall|j: int| 0 <= j < after.len() implies #[trigger] entry_placed(
        names,
        places,
        after,
        j,
    ) by {
        assert(entry_placed(names, places, before, j));
        let at = choose|at: int| #[trigger] placed_at(names, places, before[j], j, at);
        assert(placed_at(names, places, after[j], j, at));
    }
    assert forall|k: u128| #[trigger] places.contains_key(k) implies key_sound(
        names,
        places,
        after,
        k,
    ) by {
        assert(key_sound(names, places, before, k));
        let j = places[k] as int;
        let at = choose|at: int| #[trigger]
            placed_at(names, places, before[j], j, at) && place_key(at, before[j].period as int)
                == k;
        assert(after[j].period == before[j].period);
        assert(placed_at(names, places, after[j], j, at));
    }
}

/// The table of numbers leads from each name to its number, and holds no
/// other name.
pub open spec fn numbers_names(numbers: Map<Seq<char>, usize>, names: Seq<String>) -> bool {
    &&& forall|name: Seq<char>| #[trigger]
        numbers.contains_key(name) ==> numbers[name] < names.len() && names[numbers[name] as int]@
            == name
    &&& forall|a: int| 0 <= a < names.len() ==> numbers.contains_key((#[trigger] names[a])@)
}

/// Number of the name `name`.
fn find_name(
    numbers: &StringHashMap<usize>,
    Ghost(names): Ghost<Seq<String>>,
    name: &String,
) -> (found: Option<usize>)
    requires
        numbers_names(numbers@, names),
    ensures
        match found {
            Some(at) => at < names.len() && names[at as int]@ == name@,
            None => forall|m: int| 0 <= m < names.len() ==> (#[trigger] names[m])@ != name@,
        },
{
    match numbers.get(name.as_str()) {
        Some(at) => Some(*at),
        None => {
            assert forall|m: int| 0 <= m < names.len() implies (#[trigger] names[m])@ != name@ by {
                assert(numbers@.contains_key(names[m]@));
            }
            None
        },
    }
}

/// The number under which the table holds a name number and a period.
fn key_for(at: usize, period: i64) -> (k: u128)
    ensures
        k == place_key(at as int, period as int),
{
    let shifted: u128 = (period as i128 + 0x8000_0000_0000_0000) as u128;
    at as u128 * 0x1_0000_0000_0000_0000 + shifted
}

/// Number of the name and place of the entry of `name` and `period`, as
/// the table of places gives them.
fn look_up(
    names: &Vec<String>,
    numbers: &StringHashMap<usize>,
    places: &HashMap<u128, usize>,
    Ghost(entries): Ghost<Seq<Entry>>,
    name: &String,
    period: i64,
) -> (r: (Option<usize>, Option<usize>))
    requires
        leads_to(names@, places@, entries),
        numbers_names(numbers@, names@),
    ensures
        match r.1 {
            Some(i) => i < entries.len() && entries[i as int].resource_name@ == name@
                && entries[i as int].period == period,
            None => !has_key(entries, name@, period as int),
        },
        match r.0 {
            Some(at) => at < names.len() && names[at as int]@ == name@,
            None => r.1 is None && forall|m: int|
                0 <= m < names.len() ==> (#[trigger] names[m])@ != name@,
        },
        r.1 is None && r.0 is Some ==> !places@.contains_key(
            place_key(r.0->0 as int, period as int),
        ),
{
    broadcast use vstd::std_specs::hash::group_hash_axioms;

    match find_name(numbers, Ghost(names@), name) {
        Some(at) => {
            let key: u128 = key_for(at, period);
            match places.get(&key) {
                Some(place) => {
                    let i: usize = *place;
                    proof {
                        assert(places@.contains_key(key));
                        assert(key_sound(names@, places@, entries, key));
                        let other = choose|other: int| #[trigger]
                            placed_at(names@, places@, entries[i as int], i as int, other)
                                && place_key(other, entries[i as int].period as int) == key;
                        assert(0 <= other < names.len());
                        assert(other == at);
                    }
                    (Some(at), Some(i))
                },
                None => {
                    proof {
                        assert forall|j: int| 0 <= j < entries.len() implies !((
                        #[trigger] entries[j]).resource_name@ == name@ && entries[j].period
                            == period) by {
                            assert(entry_placed(names@, places@, entries, j));
                            let other = choose|other: int| #[trigger]
                                placed_at(names@, places@, entries[j], j, other);
                            if entries[j].resource_name@ == name@ && entries[j].period == period {
                                assert(names[other]@ == names[at as int]@);
                                assert(other == at);
                            }
                        }
                    }
                    (Some(at), None)
                },
            }
        },
        None => {
            proof {
                assert forall|j: int| 0 <= j < entries.len() implies !((
                #[trigger] entries[j]).resource_name@ == name@ && entries[j].period
                    == period) by {
                    assert(entry_placed(names@, places@, entries, j));
                    let other = choose|other: int| #[trigger]
                        placed_at(names@, places@, entries[j], j, other);
                    assert(names[other]@ == entries[j].resource_name@);
                }
            }
            (None, None)
        },
    }
}

/// Enters the place of an entry that was just added at the end.
fn enter_place(
    names: &mut Vec<String>,
    numbers: &mut StringHashMap<usize>,
    places: &mut HashMap<u128, usize>,
    Ghost(before): Ghost<Seq<Entry>>,
    Ghost(added): Ghost<Entry>,
    at: Option<usize>,
    name: &String,
    period: i64,
    place: usize,
)
    requires
        leads_to(old(names)@, old(places)@, before),
        numbers_names(old(numbers)@, old(names)@),
        added.resource_name@ == name@,
        added.period == period,
        place == before.len(),
        !has_key(before, name@, period as int),
        match at {
            Some(n) => n < old(names).len() && old(names)[n as int]@ == name@ && !old(
                places,
            )@.contains_key(place_key(n as int, period as int)),
            None => forall|m: int| 0 <= m < old(names).len() ==> (#[trigger] old(names)[m])@ != name@,
        },
    ensures
        leads_to(final(names)@, final(places)@, before.push(added)),
        numbers_names(final(numbers)@, final(names)@),
{
    broadcast use vstd::std_specs::hash::group_hash_axioms;

    let ghost old_names = names@;
    let ghost old_places = places@;
    let number: usize = match at {
        Some(n) => n,
        None => {
            let ghost old_numbers = numbers@;
            names.push(name.clone());
            numbers.insert(name.clone(), names.len() - 1);
            proof {
                assert forall|key: Seq<char>| #[trigger] numbers@.contains_key(key) implies numbers@[key]
                    < names.len() && names[numbers@[key] as int]@ == key by {
                    if key != name@ {
                        assert(old_numbers.contains_key(key));
                        assert(names[old_numbers[key] as int] == old_names[old_numbers[key] as int]);
                    }
                }
                assert forall|a: int| 0 <= a < names.len() implies numbers@.contains_key(
                    (#[trigger] names[a])@,
                ) by {
                    if a < old_names.len() {
                        assert(names[a] == old_names[a]);
                        assert(old_numbers.contains_key(old_names[a]@));
                    }
                }
            }
            names.len() - 1
        },
    };
    let key: u128 = key_for(number, period);
    places.insert(key, place);
    proof {
        let after = before.push(added);
        assert(places@ == old_places.insert(key, place));
        assert(names[number as int]@ == name@);
        assert forall|a: int| 0 <= a < old_names.len() implies names[a] == old_names[a] by {}
        assert(names_distinct(names@)) by {
            assert forall|a: int, b: int|
                0 <= a < names.len() && 0 <= b < names.len() && a != b implies (
            #[trigger] names[a])@ != (#[trigger] names[b])@ by {
                if a < old_names.len() {
                    assert(names[a] == old_names[a]);
                }
                if b < old_names.len() {
                    assert(names[b] == old_names[b]);
                }
            }
        }
        assert(!old_places.contains_key(key)) by {
            if old_places.contains_key(key) {
                assert(key_sound(old_names, old_places, before, key));
                let j = old_places[key] as int;
                let other = choose|other: int| #[trigger]
                    placed_at(old_names, old_places, before[j], j, other) && place_key(
                        other,
                        before[j].period as int,
                    ) == key;
                assert(0 <= other < old_names.len());
                assert(other == number);
                assert(before[j].period == period);
                assert(before[j].resource_name@ == name@);
            }
        }
        assert forall|j: int| 0 <= j < after.len() implies #[trigger] entry_placed(
            names@,
            places@,
            after,
            j,
        ) by {
            if j < before.len() {
                assert(entry_placed(old_names, old_places, before, j));
                let n = choose|n: int| #[trigger] placed_at(old_names, old_places, before[j], j, n);
                assert(names[n] == old_names[n]);
                assert(place_key(n, before[j].period as int) != key);
                assert(placed_at(names@, places@, after[j], j, n));
            } else {
                assert(placed_at(names@, places@, after[j], j, number as int));
            }
        }
        assert forall|k: u128| #[trigger] places@.contains_key(k) implies key_sound(
            names@,
            places@,
            after,
            k,
        ) by {
            if k == key {
                assert(placed_at(names@, places@, after[place as int], place as int, number as int));
            } else {
                assert(old_places.contains_key(k));
                assert(key_sound(old_names, old_places, before, k));
                let j = old_places[k] as int;
                let n = choose|n: int| #[trigger]
                    placed_at(old_names, old_places, before[j], j, n) && place_key(
                        n,
                        before[j].period as int,
                    ) == k;
                assert(names[n] == old_names[n]);
                assert(placed_at(names@, places@, after[j], j, n));
            }
        }
    }
}

/// Sums `entries` by resource and period: one entry for each pair.
pub fn group_entries(entries: &Vec<Entry>) -> (grouped: Vec<Entry>)
    requires
        summable(entries@),
    ensures
        groups(grouped@, entries@),
        grouped.len() <= entries.len(),
        summable(grouped@),
{
    let mut acc: Vec<Entry> = Vec::new();
    let mut names: Vec<String> = Vec::new();
    let mut numbers: StringHashMap<usize> = StringHashMap::new();
    let mut places: HashMap<u128, usize> = HashMap::new();
    let mut i: usize = 0;
    proof {
        assert(entries@.take(0) =~= Seq::<Entry>::empty());
        lemma_magnitudes_nonnegative(entries@);
    }
    while i < entries.len()
        invariant
            i <= entries.len(),
            summable(entries@),
            acc.len() <= i,
            groups(acc@, entries@.take(i as int)),
            leads_to(names@, places@, acc@),
            numbers_names(numbers@, names@),
        decreases entries.len() - i,
    {
        let ghost seen = entries@.take(i as int);
        let ghost next = entries@.take(i + 1);
        let ghost before = acc@;
        let e: &Entry = &entries[i];
        let (number, found) = look_up(
            &names,
            &numbers,
            &places,
            Ghost(acc@),
            &e.resource_name,
            e.period,
        );
        proof {
            lemma_magnitudes_nonnegative(entries@);
            lemma_magnitudes_nonnegative(before);
            lemma_sum_by_take(entries@, i as int, magnitude_term());
            lemma_sum_by_take(entries@, i as int, plain_count_term());
            assert(ledger_magnitude(next) <= ledger_magnitude(entries@));
            assert(ledger_count(next) <= ledger_count(entries@));
        }
        match found {
            Some(j) => {
                let streams: RevenueStreams = acc[j].streams.plus(&e.streams);
                let count: u64 = acc[j].count + e.count;
                let merged: Entry = Entry {
                    resource_name: e.resource_name.clone(),
                    period: e.period,
                    streams,
                    count,
                };
                acc.set(j, merged);
                proof {
                    lemma_leads_to_same_keys(names@, places@, before, acc@);
                    let old = before[j as int];
                    lemma_sum_by_update(before, j as int, acc[j as int], magnitude_term());
                    lemma_sum_by_update(before, j as int, acc[j as int], plain_count_term());
                    assert forall|name: Seq<char>, pick: spec_fn(int) -> bool, k: int|
                        sum_by(acc@, #[trigger] stream_term(name, pick, k)) == sum_by(
                            next,
                            stream_term(name, pick, k),
                        ) by {
                        let f = stream_term(name, pick, k);
                        lemma_sum_by_update(before, j as int, acc[j as int], f);
                        lemma_sum_by_take(entries@, i as int, f);
                        assert(sum_by(before, stream_term(name, pick, k)) == sum_by(
                            seen,
                            stream_term(name, pick, k),
                        ));
                        assert(selected(acc[j as int], name, pick) == selected(old, name, pick));
                        assert(selected(*e, name, pick) == selected(old, name, pick));
                    }
                    assert forall|name: Seq<char>, pick: spec_fn(int) -> bool|
                        sum_by(acc@, #[trigger] count_term(name, pick)) == sum_by(
                            next,
                            count_term(name, pick),
                        ) by {
                        let f = count_term(name, pick);
                        lemma_sum_by_update(before, j as int, acc[j as int], f);
                        lemma_sum_by_take(entries@, i as int, f);
                        assert(sum_by(before, count_term(name, pick)) == sum_by(
                            seen,
                            count_term(name, pick),
                        ));
                        assert(selected(acc[j as int], name, pick) == selected(old, name, pick));
                        assert(selected(*e, name, pick) == selected(old, name, pick));
                    }
                    assert(keys_distinct(acc@)) by {
                        assert forall|a: int, b: int|
                            0 <= a < acc.len() && 0 <= b < acc.len() && a != b implies !((
                            #[trigger] acc[a]).resource_name@ == (#[trigger] acc[b]).resource_name@
                                && acc[a].period == acc[b].period) by {
                            assert(acc[a].resource_name@ == before[a].resource_name@);
                            assert(acc[b].resource_name@ == before[b].resource_name@);
                            assert(acc[a].period == before[a].period);
                            assert(acc[b].period == before[b].period);
                        }
                    }
                    assert forall|a: int| 0 <= a < acc.len() implies has_key(
                        next,
                        (#[trigger] acc[a]).resource_name@,
                        acc[a].period as int,
                    ) by {
                        assert(has_key(seen, before[a].resource_name@, before[a].period as int));
                        let m = choose|m: int|
                            0 <= m < seen.len() && (#[trigger] seen[m]).resource_name@
                                == before[a].resource_name@ && seen[m].period == before[a].period;
                        assert(next[m] == seen[m]);
                    }
                    assert forall|a: int| 0 <= a < next.len() implies has_key(
                        acc@,
                        (#[trigger] next[a]).resource_name@,
                        next[a].period as int,
                    ) by {
                        if a < seen.len() {
                            assert(next[a] == seen[a]);
                            assert(has_key(before, seen[a].resource_name@, seen[a].period as int));
                            let m = choose|m: int|
                                0 <= m < before.len() && (#[trigger] before[m]).resource_name@
                                    == seen[a].resource_name@ && before[m].period == seen[a].period;
                            assert(acc[m].resource_name@ == before[m].resource_name@);
                        } else {
                            assert(acc[j as int].period == next[a].period);
                        }
                    }
                }
            },
            None => {
                let fresh: Entry = Entry {
                    resource_name: e.resource_name.clone(),
                    period: e.period,
                    streams: e.streams,
                    count: e.count,
                };
                acc.push(fresh);
                enter_place(
                    &mut names,
                    &mut numbers,
                    &mut places,
                    Ghost(before),
                    Ghost(acc@[acc.len() - 1]),
                    number,
                    &e.resource_name,
                    e.period,
                    acc.len() - 1,
                );
                proof {
                    assert(acc@ =~= before.push(acc@[acc.len() - 1]));
                    let last = acc[acc.len() - 1];
                    lemma_sum_by_push(before, last, magnitude_term());
                    lemma_sum_by_push(before, last, plain_count_term());
                    assert forall|name: Seq<char>, pick: spec_fn(int) -> bool, k: int|
                        sum_by(acc@, #[trigger] stream_term(name, pick, k)) == sum_by(
                            next,
                            stream_term(name, pick, k),
                        ) by {
                        let f = stream_term(name, pick, k);
                        lemma_sum_by_push(before, last, f);
                        lemma_sum_by_take(entries@, i as int, f);
                        assert(sum_by(before, stream_term(name, pick, k)) == sum_by(
                            seen,
                            stream_term(name, pick, k),
                        ));
                        assert(selected(last, name, pick) == selected(*e, name, pick));
                    }
                    assert forall|name: Seq<char>, pick: spec_fn(int) -> bool|
                        sum_by(acc@, #[trigger] count_term(name, pick)) == sum_by(
                            next,
                            count_term(name, pick),
                        ) by {
                        let f = count_term(name, pick);
                        lemma_sum_by_push(before, last, f);
                        lemma_sum_by_take(entries@, i as int, f);
                        assert(sum_by(before, count_term(name, pick)) == sum_by(
                            seen,
                            count_term(name, pick),
                        ));
                        assert(selected(last, name, pick) == selected(*e, name, pick));
                    }
                    assert(keys_distinct(acc@)) by {
                        assert forall|a: int, b: int|
                            0 <= a < acc.len() && 0 <= b < acc.len() && a != b implies !((
                            #[trigger] acc[a]).resource_name@ == (#[trigger] acc[b]).resource_name@
                                && acc[a].period == acc[b].period) by {
                            if a < before.len() {
                                assert(acc[a] == before[a]);
                            }
                            if b < before.len() {
                                assert(acc[b] == before[b]);
                            }
                        }
                    }
                    assert forall|a: int| 0 <= a < acc.len() implies has_key(
                        next,
                        (#[trigger] acc[a]).resource_name@,
                        acc[a].period as int,
                    ) by {
                        if a < before.len() {
                            assert(acc[a] == before[a]);
                            assert(has_key(seen, before[a].resource_name@, before[a].period as int));
                            let m = choose|m: int|
                                0 <= m < seen.len() && (#[trigger] seen[m]).resource_name@
                                    == before[a].resource_name@ && seen[m].period
                                    == before[a].period;
                            assert(next[m] == seen[m]);
                        } else {
                            assert(next[i as int].period == acc[a].period);
                        }
                    }
                    assert forall|a: int| 0 <= a < next.len() implies has_key(
                        acc@,
                        (#[trigger] next[a]).resource_name@,
                        next[a].period as int,
                    ) by {
                        if a < seen.len() {
                            assert(next[a] == seen[a]);
                            assert(has_key(before, seen[a].resource_name@, seen[a].period as int));
                            let m = choose|m: int|
                                0 <= m < before.len() && (#[trigger] before[m]).resource_name@
                                    == seen[a].resource_name@ && before[m].period == seen[a].period;
                            assert(acc[m] == before[m]);
                        } else {
                            assert(acc[acc.len() - 1].period == next[a].period);
                        }
                    }
                }
            },
        }
        i = i + 1;
    }
    proof {
        assert(entries@.take(entries.len() as int) =~= entries@);
    }
    acc
}

/// No magnitude and no count is negative.
pub proof fn lemma_magnitudes_nonnegative(entries: Seq<Entry>)
    ensures
        ledger_magnitude(entries) >= 0,
        ledger_count(entries) >= 0,
        forall|i: int|
            0 <= i < entries.len() ==> (#[trigger] entries[i]).streams@.magnitude()
                <= ledger_magnitude(entries),
        forall|i: int|
            0 <= i < entries.len() ==> (#[trigger] entries[i]).count <= ledger_count(entries),
        forall|n: int|
            0 <= n <= entries.len() ==> ledger_magnitude(#[trigger] entries.take(n))
                <= ledger_magnitude(entries),
        forall|n: int|
            0 <= n <= entries.len() ==> ledger_count(#[trigger] entries.take(n)) <= ledger_count(
                entries,
            ),
{
    let f = magnitude_term();
    let g = plain_count_term();
    assert forall|i: int| 0 <= i < entries.len() implies f(#[trigger] entries[i]) >= 0 by {
        lemma_stream_sizes(entries[i].streams@);
    }
    assert forall|i: int| 0 <= i < entries.len() implies g(#[trigger] entries[i]) >= 0 by {}
    lemma_sum_by_nonnegative(entries, f);
    lemma_sum_by_nonnegative(entries, g);
    assert forall|i: int| 0 <= i < entries.len() implies (
    #[trigger] entries[i]).streams@.magnitude() <= ledger_magnitude(entries) by {
        assert(f(entries[i]) <= sum_by(entries, f));
    }
    assert forall|i: int| 0 <= i < entries.len() implies (#[trigger] entries[i]).count
        <= ledger_count(entries) by {
        assert(g(entries[i]) <= sum_by(entries, g));
    }
}

/// Inserting a member adds its term.
pub proof fn lemma_sum_by_insert<T>(s: Seq<T>, p: int, x: T, f: spec_fn(T) -> int)
    requires
        0 <= p <= s.len(),
    ensures
        sum_by(s.insert(p, x), f) == sum_by(s, f) + f(x),
    decreases s.len(),
{
    if p == s.len() {
        assert(s.insert(p, x) =~= s.push(x));
        lemma_sum_by_push(s, x, f);
    } else {
        lemma_sum_by_insert(s.drop_last(), p, x, f);
        assert(s.insert(p, x).drop_last() =~= s.drop_last().insert(p, x));
        assert(s.insert(p, x).last() == s.last());
    }
}

/// `a` comes before `b`: by resource name, and by period within a resource.
pub open spec fn key_before(a: Entry, b: Entry) -> bool {
    lex_lt(a.resource_name@, b.resource_name@) || (a.resource_name@ == b.resource_name@ && a.period
        < b.period)
}

/// Every entry comes before all that follow it.
pub open spec fn sorted_by_key(entries: Seq<Entry>) -> bool {
    forall|i: int, j: int|
        0 <= i < j < entries.len() ==> key_before(#[trigger] entries[i], #[trigger] entries[j])
}

/// `a` and `b` hold the same entries, each as often: every sum over one is
/// the sum over the other.
pub open spec fn rearranged(a: Seq<Entry>, b: Seq<Entry>) -> bool {
    &&& a.len() == b.len()
    &&& forall|f: spec_fn(Entry) -> int| #[trigger] sum_by(a, f) == sum_by(b, f)
    &&& forall|i: int| 0 <= i < a.len() ==> b.contains(#[trigger] a[i])
    &&& forall|i: int| 0 <= i < b.len() ==> a.contains(#[trigger] b[i])
}

/// Entries in strict order have distinct keys.
pub proof fn lemma_sorted_keys_distinct(entries: Seq<Entry>)
    requires
        sorted_by_key(entries),
    ensures
        keys_distinct(entries),
{
    assert forall|i: int, j: int|
        0 <= i < entries.len() && 0 <= j < entries.len() && i != j implies !((
    #[trigger] entries[i]).resource_name@ == (#[trigger] entries[j]).resource_name@
        && entries[i].period == entries[j].period) by {
        lemma_lex_irreflexive(entries[i].resource_name@);
        if i < j {
            assert(key_before(entries[i], entries[j]));
        } else {
            assert(key_before(entries[j], entries[i]));
        }
    }
}

/// A rearrangement of a grouping that has distinct keys is a grouping of
/// the same entries.
pub proof fn lemma_rearranged_groups(sorted: Seq<Entry>, grouped: Seq<Entry>, entries: Seq<Entry>)
    requires
        rearranged(sorted, grouped),
        groups(grouped, entries),
        keys_distinct(sorted),
    ensures
        groups(sorted, entries),
{
    assert forall|name: Seq<char>, pick: spec_fn(int) -> bool, k: int|
        sum_by(sorted, #[trigger] stream_term(name, pick, k)) == sum_by(
            entries,
            stream_term(name, pick, k),
        ) by {
        assert(sum_by(sorted, stream_term(name, pick, k)) == sum_by(
            grouped,
            stream_term(name, pick, k),
        ));
    }
    assert forall|name: Seq<char>, pick: spec_fn(int) -> bool|
        sum_by(sorted, #[trigger] count_term(name, pick)) == sum_by(
            entries,
            count_term(name, pick),
        ) by {
        assert(sum_by(sorted, count_term(name, pick)) == sum_by(grouped, count_term(name, pick)));
    }
    assert forall|i: int| 0 <= i < sorted.len() implies has_key(
        entries,
        (#[trigger] sorted[i]).resource_name@,
        sorted[i].period as int,
    ) by {
        assert(grouped.contains(sorted[i]));
        let m = choose|m: int| 0 <= m < grouped.len() && grouped[m] == sorted[i];
        assert(has_key(entries, grouped[m].resource_name@, grouped[m].period as int));
    }
    assert forall|i: int| 0 <= i < entries.len() implies has_key(
        sorted,
        (#[trigger] entries[i]).resource_name@,
        entries[i].period as int,
    ) by {
        assert(has_key(grouped, entries[i].resource_name@, entries[i].period as int));
        let m = choose|m: int|
            0 <= m < grouped.len() && (#[trigger] grouped[m]).resource_name@
                == entries[i].resource_name@ && grouped[m].period == entries[i].period;
        assert(sorted.contains(grouped[m]));
        let n = choose|n: int| 0 <= n < sorted.len() && sorted[n] == grouped[m];
        assert(sorted[n].resource_name@ == entries[i].resource_name@);
    }
    assert(sum_by(sorted, magnitude_term()) == sum_by(grouped, magnitude_term()));
    assert(sum_by(sorted, plain_count_term()) == sum_by(grouped, plain_count_term()));
}

/// A copy of an entry.
pub fn copy_entry(e: &Entry) -> (c: Entry)
    ensures
        c == *e,
{
    Entry {
        resource_name: e.resource_name.clone(),
        period: e.period,
        streams: e.streams,
        count: e.count,
    }
}

/// Whether `a` comes before `b`.
pub fn entry_before(a: &Entry, b: &Entry) -> (r: bool)
    ensures
        r == key_before(*a, *b),
{
    if str_lt(a.resource_name.as_str(), b.resource_name.as_str()) {
        true
    } else {
        a.resource_name == b.resource_name && a.period < b.period
    }
}

/// Sorts entries with distinct keys by resource name, then period.
pub fn sort_entries(entries: &Vec<Entry>) -> (sorted: Vec<Entry>)
    requires
        keys_distinct(entries@),
    ensures
        sorted_by_key(sorted@),
        rearranged(sorted@, entries@),
{
    let mut out: Vec<Entry> = Vec::new();
    let mut i: usize = 0;
    proof {
        assert(entries@.take(0) =~= Seq::<Entry>::empty());
    }
    while i < entries.len()
        invariant
            i <= entries.len(),
            keys_distinct(entries@),
            sorted_by_key(out@),
            rearranged(out@, entries@.take(i as int)),
        decreases entries.len() - i,
    {
        let e: &Entry = &entries[i];
        let ghost seen = entries@.take(i as int);
        let ghost next = entries@.take(i + 1);
        let ghost before = out@;
        let mut p: usize = out.len();
        while p > 0 && entry_before(e, &out[p - 1])
            invariant
                p <= out.len(),
                out@ == before,
                *e == entries[i as int],
                forall|a: int| p <= a < out.len() ==> key_before(*e, #[trigger] out[a]),
            decreases p,
        {
            p = p - 1;
        }
        let c: Entry = copy_entry(e);
        out.insert(p, c);
        proof {
            assert(out@ == before.insert(p as int, *e));
            assert forall|a: int| 0 <= a < before.len() implies key_before(
                #[trigger] before[a],
                *e,
            ) || key_before(*e, before[a]) by {
                assert(seen.contains(before[a]));
                let m = choose|m: int| 0 <= m < seen.len() && seen[m] == before[a];
                assert(seen[m] == entries[m]);
                assert(!(entries[m].resource_name@ == entries[i as int].resource_name@
                    && entries[m].period == entries[i as int].period));
                if before[a].resource_name@ != e.resource_name@ {
                    lemma_lex_total(before[a].resource_name@, e.resource_name@);
                }
            }
            assert forall|a: int, b: int| 0 <= a < b < out.len() implies key_before(
                #[trigger] out[a],
                #[trigger] out[b],
            ) by {
                if b < p {
                    assert(out[a] == before[a] && out[b] == before[b]);
                } else if b == p {
                    assert(out[a] == before[a]);
                    let last = before[p - 1];
                    assert(key_before(last, *e) || key_before(*e, last));
                    if a < p - 1 {
                        assert(key_before(before[a], last));
                        lemma_key_before_transitive(before[a], last, *e);
                    }
                } else if a < p {
                    assert(out[a] == before[a] && out[b] == before[b - 1]);
                } else if a == p {
                    assert(out[b] == before[b - 1]);
                } else {
                    assert(out[a] == before[a - 1] && out[b] == before[b - 1]);
                }
            }
            assert forall|f: spec_fn(Entry) -> int| #[trigger] sum_by(out@, f) == sum_by(
                next,
                f,
            ) by {
                lemma_sum_by_insert(before, p as int, *e, f);
                lemma_sum_by_take(entries@, i as int, f);
                assert(sum_by(before, f) == sum_by(seen, f));
            }
            assert forall|a: int| 0 <= a < out.len() implies next.contains(#[trigger] out[a]) by {
                if a == p {
                    assert(next[i as int] == out[a]);
                } else {
                    let o = if a < p {
                        a
                    } else {
                        a - 1
                    };
                    assert(out[a] == before[o]);
                    assert(seen.contains(before[o]));
                    let m = choose|m: int| 0 <= m < seen.len() && seen[m] == before[o];
                    assert(next[m] == seen[m]);
                }
            }
            assert forall|a: int| 0 <= a < next.len() implies out@.contains(#[trigger] next[a]) by {
                if a == i {
                    assert(out[p as int] == next[a]);
                } else {
                    assert(next[a] == seen[a]);
                    assert(before.contains(seen[a]));
                    let m = choose|m: int| 0 <= m < before.len() && before[m] == seen[a];
                    if m < p {
                        assert(out[m] == before[m]);
                    } else {
                        assert(out[m + 1] == before[m]);
                    }
                }
            }
        }
        i = i + 1;
    }
    proof {
        assert(entries@.take(entries.len() as int) =~= entries@);
    }
    out
}

/// The order of entries is transitive.
pub proof fn lemma_key_before_transitive(a: Entry, b: Entry, c: Entry)
    requires
        key_before(a, b),
        key_before(b, c),
    ensures
        key_before(a, c),
{
    if lex_lt(a.resource_name@, b.resource_name@) && lex_lt(b.resource_name@, c.resource_name@) {
        lemma_lex_transitive(a.resource_name@, b.resource_name@, c.resource_name@);
    }
}

} // verus!
