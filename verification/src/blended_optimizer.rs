//! The blended optimizer: one forward pass over day-ahead hours and
//! real-time price spikes, tracking the state of charge, then pairing what
//! was charged with what was discharged.

use std::collections::HashMap;
use vstd::prelude::*;
use crate::calculator::Quote;
use crate::calculator::day_number;
use crate::calculator::day_of;
use crate::calculator::days_seen;
use crate::calculator::sort_into_days;
use crate::calculator::lemma_day_is_seen;
use crate::calculator::lemma_quotes_on_day_len;
use crate::calculator::prices_of;
use crate::calculator::quotes_on_day;
use crate::models::ArbitrageWindow;
use crate::models::MarketType;
use crate::models::PriceData;
use crate::models::TbxConfig;
use crate::models::cycle_revenue;
use crate::numeric::clamp_int;
use crate::numeric::floor_div;
use crate::numeric::floor_mod;
use crate::numeric::lemma_mean_in_range;
use crate::numeric::seq_sum;
use crate::stable_sort::arranged;
use crate::stable_sort::lemma_arranged_ascending;
use crate::stable_sort::sort_positions;
use crate::stable_sort::stable_order;

verus! {

/// Day-ahead price assumed for an hour that has none.
pub const DEFAULT_REFERENCE_PRICE: i32 = 50_000;

/// A real-time price is a spike when it exceeds the hour's day-ahead price
/// by more than this.
pub const SPIKE_PREMIUM: i32 = 10_000;

/// Most price records one run takes, both markets together.
pub const MAX_RECORDS: usize = 0x100_0000;

/// Least power an interval can be left with, kW.
pub const MIN_AVAILABLE_KW: i64 = -0x40_0000_0000_0000;

/// A stretch of time the battery can act in.
#[derive(Debug, Clone, Copy, PartialEq, Eq, Structural)]
pub struct Interval {
    /// Minutes since 1970-01-01T00:00Z.
    pub start: i32,
    pub end: i64,
    /// Thousandths of a dollar per MWh.
    pub price: i32,
    pub market: MarketType,
    /// Power not yet promised elsewhere, kW.
    pub available_kw: i64,
}

/// Price statistics of one day.
#[derive(Debug, Clone, Copy, PartialEq, Eq, Structural)]
pub struct DailyStats {
    /// Days since 1970-01-01.
    pub day: i32,
    /// Number of intervals of the day.
    pub count: usize,
    /// Sum of their prices.
    pub total: i64,
    /// Tenth and ninetieth percentile of their prices.
    pub p10_price: i32,
    pub p90_price: i32,
}

/// Start of the hour a minute falls in.
pub open spec fn hour_start(minutes: int) -> int {
    minutes - minutes % 60
}

/// `i` is the first day-ahead record for the hour that starts at `hour`.
pub open spec fn is_first_at(da: Seq<PriceData>, hour: int, i: int) -> bool {
    &&& 0 <= i < da.len()
    &&& da[i].timestamp == hour
    &&& forall|m: int| 0 <= m < i ==> (#[trigger] da[m]).timestamp != hour
}

/// The day-ahead price of the hour that starts at `hour`: that of the first
/// record for it, or the default where there is none.
pub open spec fn reference_price(da: Seq<PriceData>, hour: int) -> int {
    if exists|i: int| is_first_at(da, hour, i) {
        da[choose|i: int| is_first_at(da, hour, i)].price as int
    } else {
        DEFAULT_REFERENCE_PRICE as int
    }
}

/// The real-time price `p` stands out above its hour's day-ahead price.
pub open spec fn is_spike(da: Seq<PriceData>, p: PriceData) -> bool {
    p.price - reference_price(da, hour_start(p.timestamp as int)) > SPIKE_PREMIUM
}

/// Number of spikes among `rt` in the hour that starts at `hour`.
pub open spec fn spikes_in_hour(da: Seq<PriceData>, rt: Seq<PriceData>, hour: int) -> int
    decreases rt.len(),
{
    if rt.len() == 0 {
        0
    } else {
        let rest = spikes_in_hour(da, rt.drop_last(), hour);
        if hour_start(rt.last().timestamp as int) == hour && is_spike(da, rt.last()) {
            rest + 1
        } else {
            rest
        }
    }
}

/// The hour-long interval of the day-ahead record `i`. Each spike in its
/// hour takes a quarter of the rated power from the first record of that
/// hour.
pub open spec fn da_interval(
    da: Seq<PriceData>,
    rt: Seq<PriceData>,
    config: TbxConfig,
    i: int,
) -> Interval {
    let hour = da[i].timestamp as int;
    let taken = if is_first_at(da, hour, i) {
        spikes_in_hour(da, rt, hour) * (config.battery_power_kw / 4)
    } else {
        0
    };
    Interval {
        start: da[i].timestamp,
        end: (da[i].timestamp + 60) as i64,
        price: da[i].price,
        market: MarketType::DayAhead,
        available_kw: (config.battery_power_kw - taken) as i64,
    }
}

/// The quarter-hour interval of a spike.
pub open spec fn spike_interval(p: PriceData, config: TbxConfig) -> Interval {
    Interval {
        start: p.timestamp,
        end: (p.timestamp + 15) as i64,
        price: p.price,
        market: MarketType::RealTime15Min,
        available_kw: config.battery_power_kw as i64,
    }
}

/// The intervals of the spikes among `rt`, in input order.
pub open spec fn spike_intervals(da: Seq<PriceData>, rt: Seq<PriceData>, config: TbxConfig) -> Seq<
    Interval,
>
    decreases rt.len(),
{
    if rt.len() == 0 {
        Seq::empty()
    } else {
        let rest = spike_intervals(da, rt.drop_last(), config);
        if is_spike(da, rt.last()) {
            rest.push(spike_interval(rt.last(), config))
        } else {
            rest
        }
    }
}

/// Day-ahead hours followed by real-time spikes, before sorting.
pub open spec fn fused_intervals(da: Seq<PriceData>, rt: Seq<PriceData>, config: TbxConfig) -> Seq<
    Interval,
> {
    Seq::new(da.len(), |i: int| da_interval(da, rt, config, i)) + spike_intervals(da, rt, config)
}

/// The start times of `intervals`, position by position.
pub open spec fn starts_of(intervals: Seq<Interval>) -> Seq<int> {
    Seq::new(intervals.len(), |i: int| intervals[i].start as int)
}

/// `intervals` by ascending start; intervals that start together keep their
/// order.
pub open spec fn sorted_by_start(intervals: Seq<Interval>) -> Seq<Interval> {
    Seq::new(
        intervals.len(),
        |i: int| intervals[stable_order(starts_of(intervals))[i] as int],
    )
}

/// Start and price of each interval.
pub open spec fn interval_quotes(intervals: Seq<Interval>) -> Seq<Quote> {
    Seq::new(
        intervals.len(),
        |i: int| Quote { timestamp: intervals[i].start, price: intervals[i].price },
    )
}

/// Statistics of the prices `prices` of the day `day`. The percentiles are
/// read off the sorted prices without interpolation.
pub open spec fn price_stats(prices: Seq<int>, day: int) -> DailyStats {
    let sorted = arranged(prices, stable_order(prices));
    let n = prices.len() as int;
    DailyStats {
        day: day as i32,
        count: prices.len() as usize,
        total: seq_sum(prices) as i64,
        p10_price: if n > 0 {
            sorted[n / 10] as i32
        } else {
            0
        },
        p90_price: if n > 0 {
            sorted[n * 9 / 10] as i32
        } else {
            0
        },
    }
}

/// Statistics of the day `day` of `intervals`.
pub open spec fn day_stats(intervals: Seq<Interval>, day: int) -> DailyStats {
    price_stats(prices_of(quotes_on_day(interval_quotes(intervals), day)), day)
}

/// Number of real-time prices in the hour that starts at `hour`.
pub open spec fn prices_in_hour(rt: Seq<PriceData>, hour: int) -> int
    decreases rt.len(),
{
    if rt.len() == 0 {
        0
    } else {
        let rest = prices_in_hour(rt.drop_last(), hour);
        if hour_start(rt.last().timestamp as int) == hour {
            rest + 1
        } else {
            rest
        }
    }
}

/// No hour holds more spikes than eight.
pub open spec fn hours_uncrowded(da: Seq<PriceData>, rt: Seq<PriceData>) -> bool {
    forall|hour: int| #[trigger] spikes_in_hour(da, rt, hour) <= 8
}

/// The interval is a day-ahead hour, or a real-time quarter hour with the
/// whole rated power.
pub open spec fn interval_full(interval: Interval, config: TbxConfig) -> bool {
    interval.market == MarketType::DayAhead || (interval.market == MarketType::RealTime15Min
        && interval.available_kw == config.battery_power_kw)
}

/// Every interval is a day-ahead hour or a full real-time quarter hour.
pub open spec fn intervals_full(intervals: Seq<Interval>, config: TbxConfig) -> bool {
    forall|i: int| 0 <= i < intervals.len() ==> interval_full(#[trigger] intervals[i], config)
}

/// No interval is left with less than the opposite of the rated power.
pub open spec fn intervals_within_rating(intervals: Seq<Interval>, config: TbxConfig) -> bool {
    forall|i: int|
        0 <= i < intervals.len() ==> (#[trigger] intervals[i]).available_kw
            >= -config.battery_power_kw
}

/// An hour holds no more spikes than it holds real-time prices; so where no
/// hour holds more than four real-time prices, no hour is crowded.
pub proof fn lemma_spikes_are_prices(da: Seq<PriceData>, rt: Seq<PriceData>, hour: int)
    ensures
        spikes_in_hour(da, rt, hour) <= prices_in_hour(rt, hour),
    decreases rt.len(),
{
    if rt.len() > 0 {
        lemma_spikes_are_prices(da, rt.drop_last(), hour);
    }
}

/// Where no hour holds more than eight real-time prices, no hour is
/// crowded with spikes.
pub proof fn lemma_few_prices_uncrowded(da: Seq<PriceData>, rt: Seq<PriceData>)
    requires
        forall|hour: int| #[trigger] prices_in_hour(rt, hour) <= 8,
    ensures
        hours_uncrowded(da, rt),
{
    assert forall|hour: int| #[trigger] spikes_in_hour(da, rt, hour) <= 8 by {
        lemma_spikes_are_prices(da, rt, hour);
        assert(prices_in_hour(rt, hour) <= 8);
    }
}

/// Every available power is within what the accumulators can take.
pub open spec fn intervals_bounded(intervals: Seq<Interval>, config: TbxConfig) -> bool {
    &&& intervals.len() <= MAX_RECORDS
    &&& forall|i: int|
        0 <= i < intervals.len() ==> MIN_AVAILABLE_KW <= (#[trigger] intervals[i]).available_kw
            <= config.battery_power_kw
}

proof fn lemma_spike_count_bound(da: Seq<PriceData>, rt: Seq<PriceData>, hour: int)
    ensures
        0 <= spikes_in_hour(da, rt, hour) <= rt.len(),
    decreases rt.len(),
{
    if rt.len() > 0 {
        lemma_spike_count_bound(da, rt.drop_last(), hour);
    }
}

proof fn lemma_spike_intervals_full(da: Seq<PriceData>, rt: Seq<PriceData>, config: TbxConfig)
    ensures
        forall|i: int|
            0 <= i < spike_intervals(da, rt, config).len() ==> interval_full(
                #[trigger] spike_intervals(da, rt, config)[i],
                config,
            ),
    decreases rt.len(),
{
    if rt.len() > 0 {
        lemma_spike_intervals_full(da, rt.drop_last(), config);
        let rest = spike_intervals(da, rt.drop_last(), config);
        let all = spike_intervals(da, rt, config);
        assert forall|i: int| 0 <= i < all.len() implies interval_full(#[trigger] all[i], config) by {
            if i < rest.len() {
                assert(all[i] == rest[i]);
            } else {
                assert(all[i] == spike_interval(rt.last(), config));
            }
        }
    }
}

proof fn lemma_spike_intervals_len(da: Seq<PriceData>, rt: Seq<PriceData>, config: TbxConfig)
    ensures
        spike_intervals(da, rt, config).len() <= rt.len(),
        forall|i: int|
            0 <= i < spike_intervals(da, rt, config).len() ==> (#[trigger] spike_intervals(
                da,
                rt,
                config,
            )[i]).available_kw == config.battery_power_kw,
    decreases rt.len(),
{
    if rt.len() > 0 {
        lemma_spike_intervals_len(da, rt.drop_last(), config);
    }
}

/// Start of the hour a minute falls in.
pub fn hour_of(minutes: i32) -> (hour: i64)
    ensures
        hour == hour_start(minutes as int),
{
    let r: i128 = floor_mod(minutes as i128, 60);
    (minutes as i128 - r) as i64
}

/// Position of the first day-ahead record for the hour that starts at
/// `hour`.
pub fn find_first_at(da: &Vec<PriceData>, hour: i64) -> (found: Option<usize>)
    ensures
        match found {
            Some(i) => is_first_at(da@, hour as int, i as int),
            None => !exists|i: int| is_first_at(da@, hour as int, i),
        },
{
    let mut i: usize = 0;
    while i < da.len()
        invariant
            i <= da.len(),
            forall|m: int| 0 <= m < i ==> (#[trigger] da[m]).timestamp != hour,
        decreases da.len() - i,
    {
        if da[i].timestamp as i64 == hour {
            return Some(i);
        }
        i = i + 1;
    }
    assert forall|k: int| !is_first_at(da@, hour as int, k) by {
        if 0 <= k < da.len() {
            assert(da[k].timestamp != hour);
        }
    }
    None
}

/// Day-ahead hours and real-time spikes as one list of intervals, day-ahead
/// first.
pub fn create_intervals(da: &Vec<PriceData>, rt: &Vec<PriceData>, config: &TbxConfig) -> (out: Vec<
    Interval,
>)
    requires
        da.len() + rt.len() <= MAX_RECORDS,
    ensures
        out@ == fused_intervals(da@, rt@, *config),
        intervals_bounded(out@, *config),
        intervals_full(out@, *config),
        hours_uncrowded(da@, rt@) ==> intervals_within_rating(out@, *config),
{
    let power: i64 = config.battery_power_kw as i64;
    let quarter: i64 = power / 4;
    let n_da: usize = da.len();
    let mut out: Vec<Interval> = Vec::new();
    let mut i: usize = 0;
    while i < n_da
        invariant
            i <= n_da,
            n_da == da.len(),
            power == config.battery_power_kw,
            out.len() == i,
            forall|m: int|
                0 <= m < i ==> #[trigger] out[m] == da_interval(
                    da@,
                    Seq::<PriceData>::empty(),
                    *config,
                    m,
                ),
        decreases n_da - i,
    {
        out.push(
            Interval {
                start: da[i].timestamp,
                end: da[i].timestamp as i64 + 60,
                price: da[i].price,
                market: MarketType::DayAhead,
                available_kw: power,
            },
        );
        i = i + 1;
    }
    let mut j: usize = 0;
    assert(rt@.take(0) =~= Seq::<PriceData>::empty());
    while j < rt.len()
        invariant
            j <= rt.len(),
            n_da == da.len(),
            da.len() + rt.len() <= MAX_RECORDS,
            power == config.battery_power_kw,
            quarter == config.battery_power_kw / 4,
            out.len() == n_da + spike_intervals(da@, rt@.take(j as int), *config).len(),
            forall|m: int|
                0 <= m < n_da ==> #[trigger] out[m] == da_interval(
                    da@,
                    rt@.take(j as int),
                    *config,
                    m,
                ),
            out@.subrange(n_da as int, out.len() as int) == spike_intervals(
                da@,
                rt@.take(j as int),
                *config,
            ),
        decreases rt.len() - j,
    {
        let ghost before = rt@.take(j as int);
        let ghost after = rt@.take(j + 1);
        let ghost prior = out@;
        let hour: i64 = hour_of(rt[j].timestamp);
        let first: Option<usize> = find_first_at(da, hour);
        let reference: i64 = match first {
            Some(idx) => da[idx].price as i64,
            None => DEFAULT_REFERENCE_PRICE as i64,
        };
        proof {
            assert(after.drop_last() =~= before);
            assert(after.last() == rt[j as int]);
            assert(reference == reference_price(da@, hour as int));
            lemma_spike_intervals_len(da@, before, *config);
            assert forall|m: int| 0 <= m < n_da implies spikes_in_hour(
                da@,
                after,
                (#[trigger] da[m]).timestamp as int,
            ) == spikes_in_hour(da@, before, da[m].timestamp as int) + (if da[m].timestamp == hour
                && is_spike(da@, rt[j as int]) {
                1int
            } else {
                0int
            }) by {}
        }
        if rt[j].price as i64 - reference > SPIKE_PREMIUM as i64 {
            match first {
                Some(idx) => {
                    let mut reduced: Interval = out[idx];
                    proof {
                        let count = spikes_in_hour(da@, before, hour as int);
                        lemma_spike_count_bound(da@, before, hour as int);
                        assert((count + 1) * quarter == count * quarter + quarter)
                            by (nonlinear_arith);
                        assert(0 <= count * quarter <= 0x100_0000 * 0x4000_0000)
                            by (nonlinear_arith)
                            requires
                                0 <= count <= 0x100_0000,
                                0 <= quarter <= 0x4000_0000,
                        ;
                        assert(da[idx as int].timestamp == hour);
                        assert(reduced == da_interval(da@, before, *config, idx as int));
                        assert(reduced.available_kw == power - count * quarter);
                    }
                    reduced.available_kw = reduced.available_kw - quarter;
                    out.set(idx, reduced);
                },
                None => {},
            }
            out.push(
                Interval {
                    start: rt[j].timestamp,
                    end: rt[j].timestamp as i64 + 15,
                    price: rt[j].price,
                    market: MarketType::RealTime15Min,
                    available_kw: power,
                },
            );
        }
        proof {
            assert forall|m: int| 0 <= m < n_da implies #[trigger] out[m] == da_interval(
                da@,
                after,
                *config,
                m,
            ) by {
                assert(prior[m] == da_interval(da@, before, *config, m));
                assert(da[m].timestamp == da@[m].timestamp);
            }
            assert(out@.subrange(n_da as int, out.len() as int) =~= spike_intervals(
                da@,
                after,
                *config,
            )) by {
                assert(prior.subrange(n_da as int, prior.len() as int) == spike_intervals(
                    da@,
                    before,
                    *config,
                ));
                assert forall|m: int| n_da <= m < prior.len() implies out[m] == prior[m] by {}
                assert forall|m: int| 0 <= m < prior.len() - n_da implies out@.subrange(
                    n_da as int,
                    out.len() as int,
                )[m] == prior.subrange(n_da as int, prior.len() as int)[m] by {}
            }
        }
        j = j + 1;
    }
    proof {
        assert(rt@.take(rt.len() as int) =~= rt@);
        let fused = fused_intervals(da@, rt@, *config);
        lemma_spike_intervals_len(da@, rt@, *config);
        assert(out@ =~= fused) by {
            assert forall|m: int| 0 <= m < out.len() implies out[m] == fused[m] by {
                if m >= n_da {
                    assert(out@.subrange(n_da as int, out.len() as int)[m - n_da] == out[m]);
                }
            }
        }
        assert forall|m: int| 0 <= m < out.len() implies MIN_AVAILABLE_KW <= (
        #[trigger] out[m]).available_kw <= config.battery_power_kw by {
            if m < n_da {
                let count = spikes_in_hour(da@, rt@, da[m].timestamp as int);
                lemma_spike_count_bound(da@, rt@, da[m].timestamp as int);
                assert(0 <= count * quarter <= 0x100_0000 * 0x4000_0000) by (nonlinear_arith)
                    requires
                        0 <= count <= 0x100_0000,
                        0 <= quarter <= 0x4000_0000,
                ;
            } else {
                assert(out@.subrange(n_da as int, out.len() as int)[m - n_da] == out[m]);
            }
        }
        assert forall|m: int| 0 <= m < out.len() implies interval_full(
            #[trigger] out[m],
            *config,
        ) by {
            if m >= n_da {
                assert(out@.subrange(n_da as int, out.len() as int)[m - n_da] == out[m]);
                lemma_spike_intervals_full(da@, rt@, *config);
            }
        }
        if hours_uncrowded(da@, rt@) {
            assert forall|m: int| 0 <= m < out.len() implies (#[trigger] out[m]).available_kw
                >= -config.battery_power_kw by {
                if m < n_da {
                    let count = spikes_in_hour(da@, rt@, da[m].timestamp as int);
                    lemma_spike_count_bound(da@, rt@, da[m].timestamp as int);
                    assert(0 <= count * quarter <= 8 * quarter) by (nonlinear_arith)
                        requires
                            0 <= count <= 8,
                            0 <= quarter,
                    ;
                } else {
                    assert(out@.subrange(n_da as int, out.len() as int)[m - n_da] == out[m]);
                }
            }
        }
    }
    out
}

/// `intervals` by ascending start; intervals that start together keep their
/// order.
pub fn sort_intervals(intervals: &Vec<Interval>) -> (sorted: Vec<Interval>)
    ensures
        sorted@ == sorted_by_start(intervals@),
        sorted.len() == intervals.len(),
        forall|i: int| 0 <= i < sorted.len() ==> intervals@.contains(#[trigger] sorted[i]),
{
    let n: usize = intervals.len();
    let mut keys: Vec<i128> = Vec::new();
    let mut i: usize = 0;
    while i < n
        invariant
            i <= n,
            n == intervals.len(),
            keys.len() == i,
            forall|a: int| 0 <= a < i ==> keys[a] == intervals[a].start,
        decreases n - i,
    {
        keys.push(intervals[i].start as i128);
        i = i + 1;
    }
    assert(keys@.map_values(|k: i128| k as int) =~= starts_of(intervals@));
    let ord: Vec<usize> = sort_positions(&keys);
    let mut sorted: Vec<Interval> = Vec::new();
    let mut j: usize = 0;
    while j < n
        invariant
            j <= n,
            n == intervals.len(),
            ord.len() == n,
            ord@ == stable_order(starts_of(intervals@)),
            forall|a: int| 0 <= a < n ==> 0 <= #[trigger] ord[a] < n,
            sorted.len() == j,
            forall|a: int| 0 <= a < j ==> sorted[a] == intervals[ord[a] as int],
        decreases n - j,
    {
        sorted.push(intervals[ord[j]]);
        j = j + 1;
    }
    assert(sorted@ =~= sorted_by_start(intervals@));
    assert forall|a: int| 0 <= a < sorted.len() implies intervals@.contains(
        #[trigger] sorted[a],
    ) by {
        assert(0 <= ord[a] < n);
        assert(intervals@[ord[a] as int] == sorted[a]);
    }
    sorted
}

/// Statistics of the prices `quotes` of the day `day`.
pub fn stats_of(quotes: &Vec<Quote>, day: i32) -> (stats: DailyStats)
    requires
        quotes.len() <= MAX_RECORDS,
    ensures
        stats == price_stats(prices_of(quotes@), day as int),
        stats.p10_price <= stats.p90_price,
{
    let n: usize = quotes.len();
    let mut keys: Vec<i128> = Vec::new();
    let mut total: i64 = 0;
    let ghost prices = prices_of(quotes@);
    let mut i: usize = 0;
    while i < n
        invariant
            i <= n,
            n == quotes.len(),
            n <= MAX_RECORDS,
            prices == prices_of(quotes@),
            keys.len() == i,
            forall|a: int| 0 <= a < i ==> keys[a] == quotes[a].price,
            total == seq_sum(prices.take(i as int)),
            i * (i32::MIN as int) <= total <= i * (i32::MAX as int),
        decreases n - i,
    {
        proof {
            assert(prices.take(i + 1).drop_last() =~= prices.take(i as int));
            assert(prices.take(i + 1).last() == quotes[i as int].price);
            assert((i + 1) * (i32::MIN as int) == i * (i32::MIN as int) + (i32::MIN as int))
                by (nonlinear_arith);
            assert((i + 1) * (i32::MAX as int) == i * (i32::MAX as int) + (i32::MAX as int))
                by (nonlinear_arith);
            assert(i * (i32::MAX as int) <= 0x100_0000 * (i32::MAX as int)) by (nonlinear_arith)
                requires
                    i <= 0x100_0000,
            ;
            assert(i * (i32::MIN as int) >= 0x100_0000 * (i32::MIN as int)) by (nonlinear_arith)
                requires
                    i <= 0x100_0000,
            ;
        }
        keys.push(quotes[i].price as i128);
        total = total + quotes[i].price as i64;
        i = i + 1;
    }
    assert(prices.take(n as int) =~= prices);
    assert(keys@.map_values(|k: i128| k as int) =~= prices);
    if n == 0 {
        return DailyStats { day, count: 0, total, p10_price: 0, p90_price: 0 };
    }
    let ord: Vec<usize> = sort_positions(&keys);
    let low: usize = n / 10;
    let high: usize = n * 9 / 10;
    assert(0 <= ord[low as int] < n);
    assert(0 <= ord[high as int] < n);
    proof {
        lemma_arranged_ascending(prices, ord@);
        let sorted = arranged(prices, ord@);
        assert(sorted[low as int] <= sorted[high as int]);
    }
    DailyStats {
        day,
        count: n,
        total,
        p10_price: quotes[ord[low]].price,
        p90_price: quotes[ord[high]].price,
    }
}

/// Largest power a single action can have, kW.
pub const MAX_ACTION_KW: i64 = 0x40_0000_0000_0000;

/// What the battery did in one interval and where that left it.
#[derive(Debug, Clone, Copy, PartialEq, Eq, Structural)]
pub struct DispatchStep {
    pub interval: Interval,
    /// Power, kW: positive discharges, negative charges.
    pub action_kw: i64,
    /// State of charge after the interval, kWh.
    pub soc_kwh: u64,
}

/// One side of a cycle while it is still open.
#[derive(Debug, Clone, Copy, PartialEq, Eq, Structural)]
pub struct Leg {
    pub start: i64,
    pub end: i64,
    /// Power times minutes over the leg, kW min.
    pub weight: i128,
    /// Sum over the leg of price times power times minutes.
    pub value: i128,
}

/// The lesser of what the interval has left and the rated power.
pub open spec fn deliverable(interval: Interval, config: TbxConfig) -> int {
    if interval.available_kw < config.battery_power_kw {
        interval.available_kw as int
    } else {
        config.battery_power_kw as int
    }
}

/// The action for one interval, kW: positive discharges, negative charges,
/// zero holds.
///
/// The battery discharges above the day's ninetieth percentile when more
/// than a fifth full, else charges below the tenth percentile when less than
/// four fifths full, else discharges into a real-time spike priced above one
/// and a half times the day's mean when more than a tenth full. The ratios
/// are compared exactly, as products.
pub open spec fn action_for(interval: Interval, soc: int, stats: DailyStats, config: TbxConfig) -> int {
    let capacity = config.battery_capacity_kwh as int;
    if interval.price > stats.p90_price && 5 * soc > capacity {
        deliverable(interval, config)
    } else if interval.price < stats.p10_price && 5 * soc < 4 * capacity {
        -deliverable(interval, config)
    } else if interval.market == MarketType::RealTime15Min && 2 * interval.price * stats.count > 3
        * stats.total && 10 * soc > capacity {
        deliverable(interval, config)
    } else {
        0
    }
}

/// Size of an action, kW.
pub open spec fn magnitude(action_kw: int) -> int {
    if action_kw >= 0 {
        action_kw
    } else {
        -action_kw
    }
}

/// Energy an action moves at the terminals over one interval, kWh.
pub open spec fn step_energy(action_kw: int, market: MarketType) -> int {
    magnitude(action_kw) * market.spec_interval_minutes() / 60
}

/// State of charge after an action. Discharging draws the delivered energy
/// divided by the one-way efficiency, charging stores the energy bought
/// times that efficiency, and the result is held within the battery; with
/// no efficiency at all a discharge empties it.
pub open spec fn next_soc(soc: int, action_kw: int, market: MarketType, config: TbxConfig) -> int {
    let energy = step_energy(action_kw, market);
    let efficiency = config.spec_one_way_efficiency();
    let capacity = config.battery_capacity_kwh as int;
    if action_kw > 0 {
        if efficiency > 0 {
            clamp_int(soc - energy * 1_000_000 / efficiency, 0, capacity)
        } else {
            0
        }
    } else if action_kw < 0 {
        clamp_int(soc + energy * efficiency / 1_000_000, 0, capacity)
    } else {
        soc
    }
}

/// State of charge after the first `n` intervals, starting half full.
pub open spec fn soc_after(intervals: Seq<Interval>, config: TbxConfig, n: int) -> int
    decreases n,
{
    if n <= 0 {
        (config.battery_capacity_kwh / 2) as int
    } else {
        let before = soc_after(intervals, config, n - 1);
        let interval = intervals[n - 1];
        let stats = day_stats(intervals, day_of(interval.start as int));
        next_soc(before, action_for(interval, before, stats, config), interval.market, config)
    }
}

/// The action taken in interval `i`.
pub open spec fn action_at(intervals: Seq<Interval>, config: TbxConfig, i: int) -> int {
    action_for(
        intervals[i],
        soc_after(intervals, config, i),
        day_stats(intervals, day_of(intervals[i].start as int)),
        config,
    )
}

/// The steps of the first `n` intervals in which the battery acted.
pub open spec fn dispatch_plan(intervals: Seq<Interval>, config: TbxConfig, n: int) -> Seq<
    DispatchStep,
>
    decreases n,
{
    if n <= 0 {
        Seq::empty()
    } else {
        let rest = dispatch_plan(intervals, config, n - 1);
        let action = action_at(intervals, config, n - 1);
        if action != 0 {
            rest.push(
                DispatchStep {
                    interval: intervals[n - 1],
                    action_kw: action as i64,
                    soc_kwh: soc_after(intervals, config, n) as u64,
                },
            )
        } else {
            rest
        }
    }
}

/// What one step adds to a leg, kW min.
pub open spec fn step_weight(step: DispatchStep) -> int {
    magnitude(step.action_kw as int) * step.interval.market.spec_interval_minutes()
}

/// The leg `leg` with `step` added, or a new leg of that step alone.
pub open spec fn extended(leg: Option<Leg>, step: DispatchStep) -> Leg {
    let weight = step_weight(step);
    match leg {
        Some(l) => Leg {
            start: l.start,
            end: step.interval.end,
            weight: (l.weight + weight) as i128,
            value: (l.value + step.interval.price * weight) as i128,
        },
        None => Leg {
            start: step.interval.start as i64,
            end: step.interval.end,
            weight: weight as i128,
            value: (step.interval.price * weight) as i128,
        },
    }
}

/// The charge leg after step `n - 1` and before any pairing.
pub open spec fn charge_leg(plan: Seq<DispatchStep>, n: int) -> Option<Leg>
    decreases n, 1int,
{
    if n <= 0 {
        None
    } else if plan[n - 1].action_kw < 0 {
        Some(extended(open_charge(plan, n - 1), plan[n - 1]))
    } else {
        open_charge(plan, n - 1)
    }
}

/// The discharge leg after step `n - 1` and before any pairing.
pub open spec fn discharge_leg(plan: Seq<DispatchStep>, n: int) -> Option<Leg>
    decreases n, 1int,
{
    if n <= 0 {
        None
    } else if plan[n - 1].action_kw > 0 {
        Some(extended(open_discharge(plan, n - 1), plan[n - 1]))
    } else {
        open_discharge(plan, n - 1)
    }
}

/// Step `n - 1` completes a cycle: both legs are open after it.
pub open spec fn closes(plan: Seq<DispatchStep>, n: int) -> bool {
    charge_leg(plan, n) is Some && discharge_leg(plan, n) is Some
}

/// The charge leg left open after the first `n` steps.
pub open spec fn open_charge(plan: Seq<DispatchStep>, n: int) -> Option<Leg>
    decreases n, 2int,
{
    if n <= 0 {
        None
    } else if charge_leg(plan, n) is Some && discharge_leg(plan, n) is Some {
        None
    } else {
        charge_leg(plan, n)
    }
}

/// The discharge leg left open after the first `n` steps.
pub open spec fn open_discharge(plan: Seq<DispatchStep>, n: int) -> Option<Leg>
    decreases n, 2int,
{
    if n <= 0 {
        None
    } else if charge_leg(plan, n) is Some && discharge_leg(plan, n) is Some {
        None
    } else {
        discharge_leg(plan, n)
    }
}

/// The cycle that a charge leg and a discharge leg make: the lesser of the
/// two energies at the two mean prices.
pub open spec fn window_of(charge: Leg, discharge: Leg, config: TbxConfig) -> ArbitrageWindow {
    let weight = if charge.weight < discharge.weight {
        charge.weight
    } else {
        discharge.weight
    };
    let energy = weight / 60;
    let charge_price = charge.value / charge.weight;
    let discharge_price = discharge.value / discharge.weight;
    ArbitrageWindow {
        charge_start: charge.start,
        charge_end: charge.end,
        charge_price: charge_price as i32,
        discharge_start: discharge.start,
        discharge_end: discharge.end,
        discharge_price: discharge_price as i32,
        energy_kwh: energy as u64,
        revenue: cycle_revenue(
            energy as int,
            charge_price as int,
            discharge_price as int,
            config.round_trip_efficiency_ppm as int,
        ) as i128,
    }
}

/// The cycles completed by the first `n` steps. Consecutive charges build
/// the charge leg and consecutive discharges the discharge leg; as soon as
/// both are open they are paired off and both start afresh.
pub open spec fn paired_windows(plan: Seq<DispatchStep>, config: TbxConfig, n: int) -> Seq<
    ArbitrageWindow,
>
    decreases n,
{
    if n <= 0 {
        Seq::empty()
    } else {
        let rest = paired_windows(plan, config, n - 1);
        if closes(plan, n) {
            rest.push(window_of(charge_leg(plan, n)->0, discharge_leg(plan, n)->0, config))
        } else {
            rest
        }
    }
}

/// The dispatch of the fused and sorted intervals of two price streams.
pub open spec fn blended_plan(da: Seq<PriceData>, rt: Seq<PriceData>, config: TbxConfig) -> Seq<
    DispatchStep,
> {
    let intervals = sorted_by_start(fused_intervals(da, rt, config));
    dispatch_plan(intervals, config, intervals.len() as int)
}

/// The cycles of the blended dispatch of two price streams.
pub open spec fn blended_windows(da: Seq<PriceData>, rt: Seq<PriceData>, config: TbxConfig) -> Seq<
    ArbitrageWindow,
> {
    let plan = blended_plan(da, rt, config);
    paired_windows(plan, config, plan.len() as int)
}

/// No action of `plan` exceeds what the accumulators can take.
pub open spec fn plan_bounded(plan: Seq<DispatchStep>) -> bool {
    &&& plan.len() <= MAX_RECORDS
    &&& forall|i: int|
        0 <= i < plan.len() ==> -MAX_ACTION_KW <= (#[trigger] plan[i]).action_kw <= MAX_ACTION_KW
}

/// No action of `plan` exceeds the rated power.
pub open spec fn plan_within_rating(plan: Seq<DispatchStep>, config: TbxConfig) -> bool {
    forall|i: int|
        0 <= i < plan.len() ==> magnitude((#[trigger] plan[i]).action_kw as int)
            <= config.battery_power_kw
}

/// Every step moves at least one kWh: its power times its minutes is an
/// hour's worth of a kW or more.
pub open spec fn plan_moves_energy(plan: Seq<DispatchStep>) -> bool {
    forall|i: int| 0 <= i < plan.len() ==> step_weight(#[trigger] plan[i]) >= 60
}

/// Every window moves at least one kWh.
pub open spec fn windows_move_energy(windows: Seq<ArbitrageWindow>) -> bool {
    forall|i: int| 0 <= i < windows.len() ==> (#[trigger] windows[i]).energy_kwh >= 1
}

/// The revenue of every window is what its other fields give.
pub open spec fn revenues_consistent(windows: Seq<ArbitrageWindow>, config: TbxConfig) -> bool {
    forall|i: int|
        0 <= i < windows.len() ==> (#[trigger] windows[i]).revenue == cycle_revenue(
            windows[i].energy_kwh as int,
            windows[i].charge_price as int,
            windows[i].discharge_price as int,
            config.round_trip_efficiency_ppm as int,
        )
}

/// Every window is consistent with `config`.
pub open spec fn windows_consistent(windows: Seq<ArbitrageWindow>, config: TbxConfig) -> bool {
    forall|i: int| 0 <= i < windows.len() ==> (#[trigger] windows[i]).consistent_with(config)
}

/// The state of charge never leaves the battery: after any number of
/// intervals it is at least zero and at most the capacity.
pub proof fn lemma_soc_within_capacity(intervals: Seq<Interval>, config: TbxConfig, n: int)
    ensures
        0 <= soc_after(intervals, config, n) <= config.battery_capacity_kwh,
    decreases n,
{
    if n > 0 {
        lemma_soc_within_capacity(intervals, config, n - 1);
    }
}

/// Every recorded step holds a state of charge within the battery.
pub proof fn lemma_plan_soc_within_capacity(
    intervals: Seq<Interval>,
    config: TbxConfig,
    n: int,
    i: int,
)
    requires
        0 <= i < dispatch_plan(intervals, config, n).len(),
    ensures
        dispatch_plan(intervals, config, n)[i].soc_kwh <= config.battery_capacity_kwh,
    decreases n,
{
    if n > 0 {
        let rest = dispatch_plan(intervals, config, n - 1);
        if i < rest.len() {
            lemma_plan_soc_within_capacity(intervals, config, n - 1, i);
        } else {
            lemma_soc_within_capacity(intervals, config, n);
        }
    }
}

/// Statistics of each day of `intervals`, days in order of first
/// appearance.
pub fn calculate_daily_stats(intervals: &Vec<Interval>) -> (stats: Vec<DailyStats>)
    requires
        intervals.len() <= MAX_RECORDS,
    ensures
        stats.len() == days_seen(interval_quotes(intervals@)).len(),
        forall|i: int|
            0 <= i < stats.len() ==> #[trigger] stats[i] == day_stats(
                intervals@,
                days_seen(interval_quotes(intervals@))[i],
            ),
        forall|i: int|
            0 <= i < stats.len() ==> (#[trigger] stats[i]).day == days_seen(
                interval_quotes(intervals@),
            )[i],
{
    let n: usize = intervals.len();
    let mut quotes: Vec<Quote> = Vec::new();
    let mut i: usize = 0;
    while i < n
        invariant
            i <= n,
            n == intervals.len(),
            quotes.len() == i,
            forall|a: int|
                0 <= a < i ==> quotes[a] == (Quote {
                    timestamp: intervals[a].start,
                    price: intervals[a].price,
                }),
        decreases n - i,
    {
        quotes.push(Quote { timestamp: intervals[i].start, price: intervals[i].price });
        i = i + 1;
    }
    assert(quotes@ =~= interval_quotes(intervals@));
    let (days, buckets) = sort_into_days(&quotes);
    let ghost all_days = days_seen(quotes@);
    let mut stats: Vec<DailyStats> = Vec::new();
    let mut d: usize = 0;
    while d < days.len()
        invariant
            d <= days.len(),
            buckets.len() == days.len(),
            forall|a: int|
                0 <= a < buckets.len() ==> (#[trigger] buckets[a])@ == quotes_on_day(
                    quotes@,
                    days[a] as int,
                ),
            quotes.len() <= MAX_RECORDS,
            quotes@ == interval_quotes(intervals@),
            all_days == days@.map_values(|x: i32| x as int),
            all_days == days_seen(quotes@),
            stats.len() == d,
            forall|a: int| 0 <= a < d ==> #[trigger] stats[a] == day_stats(intervals@, all_days[a]),
            forall|a: int| 0 <= a < d ==> (#[trigger] stats[a]).day == all_days[a],
        decreases days.len() - d,
    {
        let day: i32 = days[d];
        proof {
            lemma_quotes_on_day_len(quotes@, day as int);
            assert(all_days[d as int] == day);
        }
        let entry: DailyStats = stats_of(&buckets[d], day);
        stats.push(entry);
        d = d + 1;
    }
    stats
}

/// The action for one interval.
pub fn decide_action(interval: &Interval, soc_kwh: u64, stats: &DailyStats, config: &TbxConfig) -> (action:
    i64)
    requires
        MIN_AVAILABLE_KW <= interval.available_kw,
    ensures
        action == action_for(*interval, soc_kwh as int, *stats, *config),
        -MAX_ACTION_KW <= action <= MAX_ACTION_KW,
        interval.available_kw >= -config.battery_power_kw ==> magnitude(action as int)
            <= config.battery_power_kw,
{
    let capacity: i128 = config.battery_capacity_kwh as i128;
    let soc: i128 = soc_kwh as i128;
    let power: i64 = config.battery_power_kw as i64;
    let give: i64 = if interval.available_kw < power {
        interval.available_kw
    } else {
        power
    };
    let price: i128 = interval.price as i128;
    assert(-0x1_0000_0000_0000_0000_0000_0000 <= 2 * price * stats.count
        <= 0x1_0000_0000_0000_0000_0000_0000) by (nonlinear_arith)
        requires
            -0x8000_0000 <= price <= 0x7fff_ffff,
            0 <= stats.count <= 0xffff_ffff_ffff_ffff,
    ;
    if price > stats.p90_price as i128 && 5 * soc > capacity {
        give
    } else if price < stats.p10_price as i128 && 5 * soc < 4 * capacity {
        -give
    } else if interval.market == MarketType::RealTime15Min && 2 * price * (stats.count as i128) > 3
        * (stats.total as i128) && 10 * soc > capacity {
        give
    } else {
        0
    }
}

/// State of charge after an action.
pub fn apply_action(soc_kwh: u64, action_kw: i64, market: MarketType, config: &TbxConfig) -> (after:
    u64)
    requires
        -MAX_ACTION_KW <= action_kw <= MAX_ACTION_KW,
    ensures
        after == next_soc(soc_kwh as int, action_kw as int, market, *config),
        action_kw != 0 ==> after <= config.battery_capacity_kwh,
{
    if action_kw == 0 {
        return soc_kwh;
    }
    let size: i128 = if action_kw >= 0 {
        action_kw as i128
    } else {
        -(action_kw as i128)
    };
    let minutes: i128 = market.interval_minutes() as i128;
    assert(0 <= size * minutes <= 0x40_0000_0000_0000 * 60) by (nonlinear_arith)
        requires
            0 <= size <= 0x40_0000_0000_0000,
            0 <= minutes <= 60,
    ;
    let energy: i128 = size * minutes / 60;
    assert(0 <= energy <= 0x40_0000_0000_0000) by {
        lemma_mean_in_range(size * minutes, 60, 0, 0x40_0000_0000_0000);
    }
    let efficiency: i128 = config.one_way_efficiency() as i128;
    let capacity: i128 = config.battery_capacity_kwh as i128;
    let soc: i128 = soc_kwh as i128;
    let raw: i128 = if action_kw > 0 {
        if efficiency == 0 {
            return 0;
        }
        assert(0 <= energy * 1_000_000 <= 0x40_0000_0000_0000 * 1_000_000) by (nonlinear_arith)
            requires
                0 <= energy <= 0x40_0000_0000_0000,
        ;
        let drawn: i128 = floor_div(energy * 1_000_000, efficiency);
        assert(0 <= drawn <= 0x40_0000_0000_0000 * 1_000_000) by {
            vstd::arithmetic::div_mod::lemma_div_pos_is_pos(energy * 1_000_000, efficiency as int);
            vstd::arithmetic::div_mod::lemma_div_is_ordered_by_denominator(
                energy * 1_000_000,
                1,
                efficiency as int,
            );
        }
        soc - drawn
    } else {
        assert(0 <= energy * efficiency <= 0x40_0000_0000_0000 * 0x400_0000) by (nonlinear_arith)
            requires
                0 <= energy <= 0x40_0000_0000_0000,
                0 <= efficiency <= 0x400_0000,
        ;
        let stored: i128 = energy * efficiency / 1_000_000;
        assert(0 <= stored <= 0x40_0000_0000_0000 * 0x400_0000) by {
            vstd::arithmetic::div_mod::lemma_div_pos_is_pos(energy * efficiency, 1_000_000);
            vstd::arithmetic::div_mod::lemma_div_is_ordered_by_denominator(
                energy * efficiency,
                1,
                1_000_000,
            );
        }
        soc + stored
    };
    if raw < 0 {
        0
    } else if raw > capacity {
        config.battery_capacity_kwh
    } else {
        raw as u64
    }
}

/// The table leads from each day to the place of its statistics.
pub open spec fn finds_days(table: Map<i32, usize>, stats: Seq<DailyStats>) -> bool {
    &&& forall|day: i32| #[trigger]
        table.contains_key(day) ==> table[day] < stats.len() && stats[table[day] as int].day == day
    &&& forall|m: int| 0 <= m < stats.len() ==> table.contains_key((#[trigger] stats[m]).day)
}

/// A table from each day to the place of its statistics.
fn index_days(stats: &Vec<DailyStats>) -> (table: HashMap<i32, usize>)
    ensures
        finds_days(table@, stats@),
{
    broadcast use vstd::std_specs::hash::group_hash_axioms;

    let mut table: HashMap<i32, usize> = HashMap::new();
    let mut i: usize = 0;
    while i < stats.len()
        invariant
            i <= stats.len(),
            forall|day: i32| #[trigger]
                table@.contains_key(day) ==> table@[day] < i && stats[table@[day] as int].day
                    == day,
            forall|m: int| 0 <= m < i ==> table@.contains_key((#[trigger] stats[m]).day),
        decreases stats.len() - i,
    {
        table.insert(stats[i].day, i);
        i = i + 1;
    }
    table
}

/// Position of the statistics of `day`.
fn find_stats(table: &HashMap<i32, usize>, Ghost(stats): Ghost<Seq<DailyStats>>, day: i32) -> (found:
    Option<usize>)
    requires
        finds_days(table@, stats),
    ensures
        match found {
            Some(i) => i < stats.len() && stats[i as int].day == day,
            None => forall|m: int| 0 <= m < stats.len() ==> (#[trigger] stats[m]).day != day,
        },
{
    broadcast use vstd::std_specs::hash::group_hash_axioms;

    match table.get(&day) {
        Some(place) => Some(*place),
        None => {
            assert forall|m: int| 0 <= m < stats.len() implies (#[trigger] stats[m]).day != day by {
                assert(table@.contains_key(stats[m].day));
            }
            None
        },
    }
}

/// One pass over `intervals` in the order given, starting half full; the
/// steps in which the battery acted are returned.
pub fn optimize_dispatch(intervals: &Vec<Interval>, config: &TbxConfig) -> (plan: Vec<DispatchStep>)
    requires
        intervals_bounded(intervals@, *config),
    ensures
        plan@ == dispatch_plan(intervals@, *config, intervals.len() as int),
        plan_bounded(plan@),
        forall|i: int|
            0 <= i < plan.len() ==> (#[trigger] plan[i]).soc_kwh <= config.battery_capacity_kwh,
        (forall|i: int|
            0 <= i < intervals.len() ==> (#[trigger] intervals[i]).available_kw
                >= -config.battery_power_kw) ==> plan_within_rating(plan@, *config),
        config.battery_power_kw >= 4 && intervals_full(intervals@, *config) ==> plan_moves_energy(
            plan@,
        ),
{
    let stats: Vec<DailyStats> = calculate_daily_stats(intervals);
    let table: HashMap<i32, usize> = index_days(&stats);
    let ghost quotes = interval_quotes(intervals@);
    let mut plan: Vec<DispatchStep> = Vec::new();
    let mut soc: u64 = config.battery_capacity_kwh / 2;
    let mut i: usize = 0;
    while i < intervals.len()
        invariant
            i <= intervals.len(),
            intervals_bounded(intervals@, *config),
            quotes == interval_quotes(intervals@),
            finds_days(table@, stats@),
            stats.len() == days_seen(quotes).len(),
            forall|a: int|
                0 <= a < stats.len() ==> #[trigger] stats[a] == day_stats(
                    intervals@,
                    days_seen(quotes)[a],
                ),
            forall|a: int| 0 <= a < stats.len() ==> (#[trigger] stats[a]).day == days_seen(quotes)[a],
            soc == soc_after(intervals@, *config, i as int),
            plan@ == dispatch_plan(intervals@, *config, i as int),
            plan.len() <= i,
            forall|a: int|
                0 <= a < plan.len() ==> -MAX_ACTION_KW <= (#[trigger] plan[a]).action_kw
                    <= MAX_ACTION_KW,
            forall|a: int|
                0 <= a < plan.len() ==> (#[trigger] plan[a]).soc_kwh <= config.battery_capacity_kwh,
            (forall|a: int|
                0 <= a < intervals.len() ==> (#[trigger] intervals[a]).available_kw
                    >= -config.battery_power_kw) ==> plan_within_rating(plan@, *config),
            config.battery_power_kw >= 4 && intervals_full(intervals@, *config)
                ==> plan_moves_energy(plan@),
        decreases intervals.len() - i,
    {
        let interval: Interval = intervals[i];
        let day: i32 = day_number(interval.start);
        proof {
            lemma_day_is_seen(quotes, i as int);
            assert(quotes[i as int].timestamp == interval.start);
        }
        let found: Option<usize> = find_stats(&table, Ghost(stats@), day);
        proof {
            let m = choose|m: int| 0 <= m < days_seen(quotes).len() && days_seen(quotes)[m] == day;
            assert(stats[m].day == day);
        }
        let entry: DailyStats = match found {
            Some(at) => stats[at],
            None => DailyStats { day, count: 0, total: 0, p10_price: 0, p90_price: 0 },
        };
        assert(entry == day_stats(intervals@, day as int));
        let action: i64 = decide_action(&interval, soc, &entry, config);
        let after: u64 = apply_action(soc, action, interval.market, config);
        if action != 0 {
            let ghost prior = plan@;
            plan.push(DispatchStep { interval, action_kw: action, soc_kwh: after });
            proof {
                if forall|a: int|
                    0 <= a < intervals.len() ==> (#[trigger] intervals[a]).available_kw
                        >= -config.battery_power_kw {
                    assert(intervals[i as int].available_kw >= -config.battery_power_kw);
                    assert forall|a: int| 0 <= a < plan.len() implies magnitude(
                        (#[trigger] plan[a]).action_kw as int,
                    ) <= config.battery_power_kw by {
                        if a < prior.len() {
                            assert(plan[a] == prior[a]);
                        }
                    }
                }
                if config.battery_power_kw >= 4 && intervals_full(intervals@, *config) {
                    assert(interval_full(intervals[i as int], *config));
                    assert(magnitude(action as int) >= 1);
                    if interval.market == MarketType::RealTime15Min {
                        assert(deliverable(interval, *config) == config.battery_power_kw);
                        assert(magnitude(action as int) == config.battery_power_kw);
                    }
                    let last = plan[plan.len() - 1];
                    assert(step_weight(last) >= 60);
                    assert forall|a: int| 0 <= a < plan.len() implies step_weight(
                        #[trigger] plan[a],
                    ) >= 60 by {
                        if a < prior.len() {
                            assert(plan[a] == prior[a]);
                        }
                    }
                }
            }
        }
        soc = after;
        i = i + 1;
    }
    plan
}

/// Adds a step to a leg.
fn extend_leg(leg: Option<Leg>, step: &DispatchStep, steps_before: usize) -> (out: Leg)
    requires
        -MAX_ACTION_KW <= step.action_kw <= MAX_ACTION_KW,
        step.action_kw != 0,
        steps_before < MAX_RECORDS,
        leg matches Some(l) ==> leg_bounded(l, steps_before as int),
    ensures
        out == extended(leg, *step),
        leg_bounded(out, steps_before + 1),
        leg is None ==> out.weight == step_weight(*step),
        out.weight >= step_weight(*step),
{
    let size: i128 = if step.action_kw >= 0 {
        step.action_kw as i128
    } else {
        -(step.action_kw as i128)
    };
    let minutes: i128 = step.interval.market.interval_minutes() as i128;
    assert(0 < size * minutes <= 0x40_0000_0000_0000 * 60) by (nonlinear_arith)
        requires
            0 < size <= 0x40_0000_0000_0000,
            5 <= minutes <= 60,
    ;
    let weight: i128 = size * minutes;
    let price: i128 = step.interval.price as i128;
    assert(weight * (i32::MIN as int) <= price * weight <= weight * (i32::MAX as int))
        by (nonlinear_arith)
        requires
            0 < weight,
            i32::MIN <= price <= i32::MAX,
    ;
    assert(-0x8000_0000 * (0x40_0000_0000_0000 * 60) <= price * weight <= 0x8000_0000 * (
    0x40_0000_0000_0000 * 60)) by (nonlinear_arith)
        requires
            0 < weight <= 0x40_0000_0000_0000 * 60,
            -0x8000_0000 <= price <= 0x8000_0000,
    ;
    let value: i128 = price * weight;
    match leg {
        Some(l) => {
            proof {
                assert((steps_before + 1) * (0x40_0000_0000_0000 * 60) == steps_before * (
                0x40_0000_0000_0000 * 60) + 0x40_0000_0000_0000 * 60) by (nonlinear_arith);
                assert(steps_before * (0x40_0000_0000_0000 * 60) <= 0x100_0000 * (
                0x40_0000_0000_0000 * 60)) by (nonlinear_arith)
                    requires
                        steps_before <= 0x100_0000,
                ;
                assert((l.weight + weight) * (i32::MIN as int) == l.weight * (i32::MIN as int)
                    + weight * (i32::MIN as int)) by (nonlinear_arith);
                assert((l.weight + weight) * (i32::MAX as int) == l.weight * (i32::MAX as int)
                    + weight * (i32::MAX as int)) by (nonlinear_arith);
                assert(l.weight * (i32::MAX as int) <= 0x100_0000 * (0x40_0000_0000_0000 * 60)
                    * 0x8000_0000) by (nonlinear_arith)
                    requires
                        0 <= l.weight <= 0x100_0000 * (0x40_0000_0000_0000 * 60),
                ;
                assert(l.weight * (i32::MIN as int) >= -0x100_0000 * (0x40_0000_0000_0000 * 60)
                    * 0x8000_0000) by (nonlinear_arith)
                    requires
                        0 <= l.weight <= 0x100_0000 * (0x40_0000_0000_0000 * 60),
                ;
            }
            Leg {
                start: l.start,
                end: step.interval.end,
                weight: l.weight + weight,
                value: l.value + value,
            }
        },
        None => {
            proof {
                assert((steps_before + 1) * (0x40_0000_0000_0000 * 60) >= 0x40_0000_0000_0000 * 60)
                    by (nonlinear_arith)
                    requires
                        steps_before >= 0,
                ;
            }
            Leg { start: step.interval.start as i64, end: step.interval.end, weight, value }
        },
    }
}

/// A leg built from at most `steps` bounded steps: its weight is positive
/// and its value is that of prices that fit 32 bits.
pub open spec fn leg_bounded(leg: Leg, steps: int) -> bool {
    &&& 0 < leg.weight <= steps * (0x40_0000_0000_0000 * 60)
    &&& leg.weight * (i32::MIN as int) <= leg.value <= leg.weight * (i32::MAX as int)
}

proof fn lemma_leg_bounded_later(leg: Leg, steps: int, later: int)
    requires
        leg_bounded(leg, steps),
        steps <= later,
    ensures
        leg_bounded(leg, later),
{
    assert(steps * (0x40_0000_0000_0000 * 60) <= later * (0x40_0000_0000_0000 * 60))
        by (nonlinear_arith)
        requires
            steps <= later,
    ;
}

/// Pairs a charge leg with a discharge leg.
fn pair_legs(charge: &Leg, discharge: &Leg, config: &TbxConfig, steps: usize) -> (w: ArbitrageWindow)
    requires
        steps <= MAX_RECORDS,
        leg_bounded(*charge, steps as int),
        leg_bounded(*discharge, steps as int),
        charge.weight <= 0x40_0000_0000_0000 * 60 || discharge.weight <= 0x40_0000_0000_0000 * 60,
    ensures
        w == window_of(*charge, *discharge, *config),
        w.revenue == cycle_revenue(
            w.energy_kwh as int,
            w.charge_price as int,
            w.discharge_price as int,
            config.round_trip_efficiency_ppm as int,
        ),
        w.energy_kwh * 60 <= charge.weight,
        w.energy_kwh * 60 <= discharge.weight,
        charge.weight >= 60 && discharge.weight >= 60 ==> w.energy_kwh >= 1,
{
    let weight: i128 = if charge.weight < discharge.weight {
        charge.weight
    } else {
        discharge.weight
    };
    let energy: i128 = weight / 60;
    proof {
        lemma_mean_in_range(weight as int, 60, 0, 0x40_0000_0000_0000);
        vstd::arithmetic::div_mod::lemma_fundamental_div_mod(weight as int, 60);
        lemma_mean_in_range(charge.value as int, charge.weight as int, i32::MIN as int, i32::MAX as int);
        lemma_mean_in_range(
            discharge.value as int,
            discharge.weight as int,
            i32::MIN as int,
            i32::MAX as int,
        );
    }
    let charge_price: i128 = floor_div(charge.value, charge.weight);
    let discharge_price: i128 = floor_div(discharge.value, discharge.weight);
    let spread: i128 = discharge_price - charge_price;
    let efficiency: i128 = config.round_trip_efficiency_ppm as i128;
    assert(-0x40_0000_0000_0000 * 0x1_0000_0000 <= energy * spread <= 0x40_0000_0000_0000
        * 0x1_0000_0000) by (nonlinear_arith)
        requires
            0 <= energy <= 0x40_0000_0000_0000,
            -0xffff_ffff <= spread <= 0xffff_ffff,
    ;
    let gross: i128 = energy * spread;
    assert(-0x40_0000_0000_0000 * 0x1_0000_0000 * 0x1_0000_0000 <= gross * efficiency
        <= 0x40_0000_0000_0000 * 0x1_0000_0000 * 0x1_0000_0000) by (nonlinear_arith)
        requires
            -0x40_0000_0000_0000 * 0x1_0000_0000 <= gross <= 0x40_0000_0000_0000 * 0x1_0000_0000,
            0 <= efficiency <= 0xffff_ffff,
    ;
    let revenue: i128 = floor_div(gross * efficiency, 1_000_000);
    ArbitrageWindow {
        charge_start: charge.start,
        charge_end: charge.end,
        charge_price: charge_price as i32,
        discharge_start: discharge.start,
        discharge_end: discharge.end,
        discharge_price: discharge_price as i32,
        energy_kwh: energy as u64,
        revenue,
    }
}

/// Turns a dispatch plan into cycles.
///
/// Each window's revenue is what its energy, its two prices and the
/// round-trip efficiency give. Where no action exceeds the rated power, no
/// window moves more energy than the battery holds.
pub fn create_arbitrage_windows(plan: &Vec<DispatchStep>, config: &TbxConfig) -> (windows: Vec<
    ArbitrageWindow,
>)
    requires
        plan_bounded(plan@),
    ensures
        windows@ == paired_windows(plan@, *config, plan.len() as int),
        windows.len() <= plan.len(),
        revenues_consistent(windows@, *config),
        config.well_formed() && plan_within_rating(plan@, *config) ==> windows_consistent(
            windows@,
            *config,
        ),
        plan_moves_energy(plan@) ==> windows_move_energy(windows@),
{
    let mut windows: Vec<ArbitrageWindow> = Vec::new();
    let mut charge: Option<Leg> = None;
    let mut discharge: Option<Leg> = None;
    let mut i: usize = 0;
    while i < plan.len()
        invariant
            i <= plan.len(),
            plan_bounded(plan@),
            charge == open_charge(plan@, i as int),
            discharge == open_discharge(plan@, i as int),
            !(charge is Some && discharge is Some),
            charge matches Some(l) ==> leg_bounded(l, i as int),
            discharge matches Some(l) ==> leg_bounded(l, i as int),
            windows@ == paired_windows(plan@, *config, i as int),
            windows.len() <= i,
            revenues_consistent(windows@, *config),
            config.well_formed() && plan_within_rating(plan@, *config) ==> windows_consistent(
                windows@,
                *config,
            ),
            plan_moves_energy(plan@) ==> windows_move_energy(windows@),
            plan_moves_energy(plan@) ==> (charge matches Some(l) ==> l.weight >= 60),
            plan_moves_energy(plan@) ==> (discharge matches Some(l) ==> l.weight >= 60),
        decreases plan.len() - i,
    {
        let step: DispatchStep = plan[i];
        let ghost prior = windows@;
        let mut fresh: i128 = 0;
        proof {
            if charge is Some {
                lemma_leg_bounded_later(charge->0, i as int, i + 1);
            }
            if discharge is Some {
                lemma_leg_bounded_later(discharge->0, i as int, i + 1);
            }
        }
        if step.action_kw < 0 {
            let leg: Leg = extend_leg(charge, &step, i);
            if charge.is_none() {
                fresh = leg.weight;
            }
            charge = Some(leg);
        } else if step.action_kw > 0 {
            let leg: Leg = extend_leg(discharge, &step, i);
            if discharge.is_none() {
                fresh = leg.weight;
            }
            discharge = Some(leg);
        }
        assert(charge == charge_leg(plan@, i + 1));
        assert(discharge == discharge_leg(plan@, i + 1));
        proof {
            if plan_moves_energy(plan@) {
                assert(step_weight(plan[i as int]) >= 60);
            }
        }
        match (charge, discharge) {
            (Some(c), Some(d)) => {
                proof {
                    assert(fresh == step_weight(step));
                    assert(0 <= step_weight(step) <= 0x40_0000_0000_0000 * 60) by (nonlinear_arith)
                        requires
                            step_weight(step) == magnitude(step.action_kw as int)
                                * step.interval.market.spec_interval_minutes(),
                            0 <= magnitude(step.action_kw as int) <= 0x40_0000_0000_0000,
                            0 <= step.interval.market.spec_interval_minutes() <= 60,
                    ;
                }
                let w: ArbitrageWindow = pair_legs(&c, &d, config, i + 1);
                windows.push(w);
                charge = None;
                discharge = None;
                proof {
                    assert forall|a: int| 0 <= a < windows.len() implies (
                    #[trigger] windows[a]).revenue == cycle_revenue(
                        windows[a].energy_kwh as int,
                        windows[a].charge_price as int,
                        windows[a].discharge_price as int,
                        config.round_trip_efficiency_ppm as int,
                    ) by {
                        if a < prior.len() {
                            assert(windows[a] == prior[a]);
                        }
                    }
                    if plan_moves_energy(plan@) {
                        assert forall|a: int| 0 <= a < windows.len() implies (
                        #[trigger] windows[a]).energy_kwh >= 1 by {
                            if a < prior.len() {
                                assert(windows[a] == prior[a]);
                            }
                        }
                    }
                    if config.well_formed() && plan_within_rating(plan@, *config) {
                        assert(magnitude(plan[i as int].action_kw as int) <= config.battery_power_kw);
                        assert(step_weight(step) <= config.battery_power_kw * 60) by (nonlinear_arith)
                            requires
                                step_weight(step) == magnitude(step.action_kw as int)
                                    * step.interval.market.spec_interval_minutes(),
                                0 <= magnitude(step.action_kw as int) <= config.battery_power_kw,
                                0 <= step.interval.market.spec_interval_minutes() <= 60,
                        ;
                        assert(config.battery_power_kw <= config.battery_capacity_kwh)
                            by (nonlinear_arith)
                            requires
                                config.battery_capacity_kwh == config.battery_power_kw
                                    * config.duration_hours,
                                config.duration_hours >= 1,
                        ;
                        assert forall|a: int| 0 <= a < windows.len() implies (
                        #[trigger] windows[a]).consistent_with(*config) by {
                            if a < prior.len() {
                                assert(windows[a] == prior[a]);
                            }
                        }
                    }
                }
            },
            _ => {},
        }
        i = i + 1;
    }
    windows
}

/// Dispatches a battery over a day-ahead and a real-time price stream.
pub struct BlendedOptimizer {
    config: TbxConfig,
}

impl BlendedOptimizer {
    #[verifier::type_invariant]
    spec fn holds_valid_profile(&self) -> bool {
        self.config.well_formed()
    }

    /// The profile the optimizer was made with.
    pub closed spec fn config(&self) -> TbxConfig {
        self.config
    }

    pub fn new(config: TbxConfig) -> (optimizer: Self)
        requires
            config.well_formed(),
        ensures
            optimizer.config() == config,
    {
        Self { config }
    }

    /// The cycles of a battery that follows both markets, for any prices:
    /// none where there are more prices than one run takes.
    pub fn try_optimize_blended(&self, da_prices: &Vec<PriceData>, rt_prices: &Vec<PriceData>) -> (r:
        Option<Vec<ArbitrageWindow>>)
        ensures
            match r {
                Some(windows) => da_prices.len() + rt_prices.len() <= MAX_RECORDS && windows@
                    == blended_windows(da_prices@, rt_prices@, self.config())
                    && revenues_consistent(windows@, self.config()) && (hours_uncrowded(
                    da_prices@,
                    rt_prices@,
                ) ==> windows_consistent(windows@, self.config())) && (
                self.config().battery_power_kw >= 4 ==> windows_move_energy(windows@)),
                None => da_prices.len() + rt_prices.len() > MAX_RECORDS,
            },
    {
        if da_prices.len() <= MAX_RECORDS && rt_prices.len() <= MAX_RECORDS - da_prices.len() {
            Some(self.optimize_blended(da_prices, rt_prices))
        } else {
            None
        }
    }

    /// The cycles of a battery that follows both markets.
    ///
    /// Every day-ahead price opens an hour at rated power. Every real-time
    /// price more than the premium above its hour's day-ahead price opens a
    /// quarter hour at rated power and takes a quarter of the rated power
    /// from that hour. The intervals are put in order of start and walked
    /// once, and the actions taken are paired into cycles.
    ///
    /// Where no hour holds more than eight spikes, which is so where no hour
    /// holds more than eight real-time prices, no window moves more energy
    /// than the battery holds. With a rated power of 4 kW or more every
    /// window moves at least one kWh.
    pub fn optimize_blended(&self, da_prices: &Vec<PriceData>, rt_prices: &Vec<PriceData>) -> (windows:
        Vec<ArbitrageWindow>)
        requires
            da_prices.len() + rt_prices.len() <= MAX_RECORDS,
        ensures
            windows@ == blended_windows(da_prices@, rt_prices@, self.config()),
            windows.len() <= MAX_RECORDS,
            revenues_consistent(windows@, self.config()),
            plan_within_rating(blended_plan(da_prices@, rt_prices@, self.config()), self.config())
                ==> windows_consistent(windows@, self.config()),
            hours_uncrowded(da_prices@, rt_prices@) ==> windows_consistent(
                windows@,
                self.config(),
            ),
            self.config().battery_power_kw >= 4 ==> windows_move_energy(windows@),
    {
        proof {
            use_type_invariant(self);
        }
        let config: TbxConfig = self.config;
        let intervals: Vec<Interval> = create_intervals(da_prices, rt_prices, &config);
        proof {
            lemma_spike_intervals_len(da_prices@, rt_prices@, config);
        }
        let sorted: Vec<Interval> = sort_intervals(&intervals);
        assert(intervals_bounded(sorted@, config)) by {
            assert forall|i: int| 0 <= i < sorted.len() implies MIN_AVAILABLE_KW <= (
            #[trigger] sorted[i]).available_kw <= config.battery_power_kw by {
                assert(intervals@.contains(sorted[i]));
                let m = choose|m: int| 0 <= m < intervals.len() && intervals[m] == sorted[i];
                assert(MIN_AVAILABLE_KW <= intervals[m].available_kw);
            }
        }
        assert(intervals_full(sorted@, config)) by {
            assert forall|i: int| 0 <= i < sorted.len() implies interval_full(
                #[trigger] sorted[i],
                config,
            ) by {
                assert(intervals@.contains(sorted[i]));
                let m = choose|m: int| 0 <= m < intervals.len() && intervals[m] == sorted[i];
                assert(interval_full(intervals[m], config));
            }
        }
        proof {
            if hours_uncrowded(da_prices@, rt_prices@) {
                assert forall|i: int| 0 <= i < sorted.len() implies (
                #[trigger] sorted[i]).available_kw >= -config.battery_power_kw by {
                    assert(intervals@.contains(sorted[i]));
                    let m = choose|m: int| 0 <= m < intervals.len() && intervals[m] == sorted[i];
                    assert(intervals[m].available_kw >= -config.battery_power_kw);
                }
            }
        }
        let plan: Vec<DispatchStep> = optimize_dispatch(&sorted, &config);
        create_arbitrage_windows(&plan, &config)
    }
}

} // verus!
