//! The Top-Bottom-X window selector: on each day, charge in the cheapest
//! intervals and discharge in the dearest ones.

use std::collections::HashMap;
use vstd::prelude::*;
use crate::models::ArbitrageWindow;
use crate::models::MarketType;
use crate::models::PriceData;
use crate::models::TbxConfig;
use crate::models::TbxResult;
use crate::models::average_spread;
use crate::models::average_spread_of;
use crate::models::cycle_revenue;
use crate::models::peak_energy;
use crate::models::sum_revenue;
use crate::models::total_energy;
use crate::models::total_revenue;
use crate::models::total_weighted_spread;
use crate::models::window_bounded;
use crate::models::windows_bounded;
use crate::models::MAX_WINDOWS;
use crate::numeric::floor_div;
use crate::numeric::lemma_distinct_in_range;
use crate::numeric::lemma_mean_in_range;
use crate::stable_sort::sort_positions;
use crate::stable_sort::stable_order;

verus! {

/// A price and the start of the interval it covers.
#[derive(Debug, Clone, Copy, PartialEq, Eq, Structural)]
pub struct Quote {
    /// Minutes since 1970-01-01T00:00Z.
    pub timestamp: i32,
    /// Thousandths of a dollar per MWh.
    pub price: i32,
}

/// The prices of `quotes`, position by position.
pub open spec fn prices_of(quotes: Seq<Quote>) -> Seq<int> {
    Seq::new(quotes.len(), |i: int| quotes[i].price as int)
}

/// Sum of the prices at the positions `picks`.
pub open spec fn price_sum(quotes: Seq<Quote>, picks: Seq<usize>) -> int
    decreases picks.len(),
{
    if picks.len() == 0 {
        0
    } else {
        price_sum(quotes, picks.drop_last()) + quotes[picks.last() as int].price
    }
}

/// Earliest timestamp at the positions `picks`.
pub open spec fn earliest(quotes: Seq<Quote>, picks: Seq<usize>) -> int
    decreases picks.len(),
{
    if picks.len() == 0 {
        i32::MAX as int
    } else {
        let rest = earliest(quotes, picks.drop_last());
        let t = quotes[picks.last() as int].timestamp as int;
        if t < rest {
            t
        } else {
            rest
        }
    }
}

/// Latest timestamp at the positions `picks`.
pub open spec fn latest(quotes: Seq<Quote>, picks: Seq<usize>) -> int
    decreases picks.len(),
{
    if picks.len() == 0 {
        i32::MIN as int
    } else {
        let rest = latest(quotes, picks.drop_last());
        let t = quotes[picks.last() as int].timestamp as int;
        if t > rest {
            t
        } else {
            rest
        }
    }
}

/// Number of intervals in each of the two sets.
pub open spec fn set_size(config: TbxConfig, market: MarketType) -> int {
    config.duration_hours * market.spec_intervals_per_hour()
}

/// Positions of the charge set: the `set_size` cheapest intervals.
pub open spec fn charge_set(quotes: Seq<Quote>, config: TbxConfig, market: MarketType) -> Seq<
    usize,
> {
    stable_order(prices_of(quotes)).subrange(0, set_size(config, market))
}

/// Positions of the discharge set: the `set_size` dearest intervals.
pub open spec fn discharge_set(quotes: Seq<Quote>, config: TbxConfig, market: MarketType) -> Seq<
    usize,
> {
    stable_order(prices_of(quotes)).subrange(
        quotes.len() - set_size(config, market),
        quotes.len() as int,
    )
}

/// Mean price over the positions `picks`.
pub open spec fn mean_price(quotes: Seq<Quote>, picks: Seq<usize>) -> int {
    price_sum(quotes, picks) / (picks.len() as int)
}

/// A day with fewer than two full sets of priced intervals is left out.
pub open spec fn enough_data(quotes: Seq<Quote>, config: TbxConfig, market: MarketType) -> bool {
    quotes.len() >= 2 && quotes.len() >= 2 * set_size(config, market)
}

/// Mean discharge price less mean charge price.
pub open spec fn day_spread(quotes: Seq<Quote>, config: TbxConfig, market: MarketType) -> int {
    mean_price(quotes, discharge_set(quotes, config, market)) - mean_price(
        quotes,
        charge_set(quotes, config, market),
    )
}

/// The cycle of one day of one market, where the day has enough data and the
/// spread reaches the profile's threshold.
pub open spec fn day_window(quotes: Seq<Quote>, config: TbxConfig, market: MarketType) -> Option<
    ArbitrageWindow,
> {
    if !enough_data(quotes, config, market) {
        None
    } else if day_spread(quotes, config, market) < config.min_spread_threshold {
        None
    } else {
        let charge = charge_set(quotes, config, market);
        let discharge = discharge_set(quotes, config, market);
        let energy = config.battery_power_kw * config.duration_hours;
        let charge_price = mean_price(quotes, charge);
        let discharge_price = mean_price(quotes, discharge);
        Some(
            ArbitrageWindow {
                charge_start: earliest(quotes, charge) as i64,
                charge_end: (latest(quotes, charge) + market.spec_interval_minutes()) as i64,
                charge_price: charge_price as i32,
                discharge_start: earliest(quotes, discharge) as i64,
                discharge_end: (latest(quotes, discharge) + market.spec_interval_minutes()) as i64,
                discharge_price: discharge_price as i32,
                energy_kwh: energy as u64,
                revenue: cycle_revenue(
                    energy,
                    charge_price,
                    discharge_price,
                    config.round_trip_efficiency_ppm as int,
                ) as i128,
            },
        )
    }
}

/// The sum of `count` prices lies between `count` times the least and
/// `count` times the greatest price there is.
proof fn lemma_price_sum_bounds(quotes: Seq<Quote>, picks: Seq<usize>)
    requires
        forall|i: int| 0 <= i < picks.len() ==> #[trigger] picks[i] < quotes.len(),
    ensures
        picks.len() * (i32::MIN as int) <= price_sum(quotes, picks) <= picks.len() * (
        i32::MAX as int),
    decreases picks.len(),
{
    if picks.len() > 0 {
        let rest = picks.drop_last();
        assert forall|i: int| 0 <= i < rest.len() implies #[trigger] rest[i] < quotes.len() by {
            assert(rest[i] == picks[i]);
        }
        lemma_price_sum_bounds(quotes, rest);
        assert(picks.last() == picks[picks.len() - 1]);
        assert(rest.len() == picks.len() - 1);
        assert(picks.len() * (i32::MIN as int) == rest.len() * (i32::MIN as int) + (
        i32::MIN as int)) by (nonlinear_arith)
            requires
                rest.len() == picks.len() - 1,
        ;
        assert(picks.len() * (i32::MAX as int) == rest.len() * (i32::MAX as int) + (
        i32::MAX as int)) by (nonlinear_arith)
            requires
                rest.len() == picks.len() - 1,
        ;
    }
}

/// Sum, earliest and latest timestamp over `ord[from..to]`.
fn summarize(quotes: &Vec<Quote>, ord: &Vec<usize>, from: usize, to: usize) -> (r: (i64, i32, i32))
    requires
        from < to <= ord.len(),
        to - from <= 48,
        forall|i: int| 0 <= i < ord.len() ==> #[trigger] ord[i] < quotes.len(),
    ensures
        r.0 == price_sum(quotes@, ord@.subrange(from as int, to as int)),
        r.1 == earliest(quotes@, ord@.subrange(from as int, to as int)),
        r.2 == latest(quotes@, ord@.subrange(from as int, to as int)),
{
    let mut sum: i64 = 0;
    let mut first: i32 = i32::MAX;
    let mut last: i32 = i32::MIN;
    let mut j: usize = from;
    while j < to
        invariant
            from <= j <= to <= ord.len(),
            to - from <= 48,
            forall|i: int| 0 <= i < ord.len() ==> #[trigger] ord[i] < quotes.len(),
            sum == price_sum(quotes@, ord@.subrange(from as int, j as int)),
            first == earliest(quotes@, ord@.subrange(from as int, j as int)),
            last == latest(quotes@, ord@.subrange(from as int, j as int)),
            (j - from) * (i32::MIN as int) <= sum <= (j - from) * (i32::MAX as int),
        decreases to - j,
    {
        let q: Quote = quotes[ord[j]];
        proof {
            let next = ord@.subrange(from as int, j + 1);
            assert(next.drop_last() =~= ord@.subrange(from as int, j as int));
            assert(next.last() == ord[j as int]);
            assert((j + 1 - from) * (i32::MIN as int) == (j - from) * (i32::MIN as int) + (
            i32::MIN as int)) by (nonlinear_arith);
            assert((j + 1 - from) * (i32::MAX as int) == (j - from) * (i32::MAX as int) + (
            i32::MAX as int)) by (nonlinear_arith);
            assert((j - from) * (i32::MAX as int) <= 48 * (i32::MAX as int)) by (nonlinear_arith)
                requires
                    j - from <= 48,
            ;
            assert((j - from) * (i32::MIN as int) >= 48 * (i32::MIN as int)) by (nonlinear_arith)
                requires
                    j - from <= 48,
            ;
        }
        sum = sum + q.price as i64;
        if q.timestamp < first {
            first = q.timestamp;
        }
        if q.timestamp > last {
            last = q.timestamp;
        }
        j = j + 1;
    }
    (sum, first, last)
}

/// The cycle of one day of one market.
///
/// `quotes` are the day's priced intervals in the order they were recorded;
/// among equal prices the earlier record is the cheaper one. The result is
/// `None` when the day has fewer than two full sets of intervals, or when the
/// spread between the two means is under the profile's threshold.
pub fn select_day_window(quotes: &Vec<Quote>, config: &TbxConfig, market: MarketType) -> (w: Option<
    ArbitrageWindow,
>)
    requires
        config.well_formed(),
    ensures
        w == day_window(quotes@, *config, market),
        !enough_data(quotes@, *config, market) ==> w is None,
        w matches Some(win) ==> win.consistent_with(*config) && win.energy_kwh
            == config.battery_capacity_kwh && win.discharge_price - win.charge_price
            >= config.min_spread_threshold,
{
    let n: usize = quotes.len();
    let per_hour: usize = market.intervals_per_hour();
    let k: usize = config.duration_hours as usize * per_hour;
    assert(k == set_size(*config, market));
    assert(1 <= k <= 48);
    if n < 2 || n < 2 * k {
        return None;
    }
    let mut keys: Vec<i128> = Vec::new();
    let mut i: usize = 0;
    while i < n
        invariant
            i <= n,
            n == quotes.len(),
            keys.len() == i,
            forall|a: int| 0 <= a < i ==> keys[a] == quotes[a].price,
        decreases n - i,
    {
        keys.push(quotes[i].price as i128);
        i = i + 1;
    }
    assert(keys@.map_values(|p: i128| p as int) =~= prices_of(quotes@));
    let ord: Vec<usize> = sort_positions(&keys);
    let ghost charge = charge_set(quotes@, *config, market);
    let ghost discharge = discharge_set(quotes@, *config, market);
    assert(charge == ord@.subrange(0, k as int));
    assert(discharge == ord@.subrange(n - k, n as int));
    let (charge_sum, charge_first, charge_last) = summarize(quotes, &ord, 0, k);
    let (discharge_sum, discharge_first, discharge_last) = summarize(quotes, &ord, n - k, n);
    proof {
        assert forall|a: int| 0 <= a < charge.len() implies #[trigger] charge[a] < quotes.len() by {
            assert(charge[a] == ord[a]);
        }
        assert forall|a: int| 0 <= a < discharge.len() implies #[trigger] discharge[a]
            < quotes.len() by {
            assert(discharge[a] == ord[n - k + a]);
        }
        lemma_price_sum_bounds(quotes@, charge);
        lemma_price_sum_bounds(quotes@, discharge);
        lemma_mean_in_range(charge_sum as int, k as int, i32::MIN as int, i32::MAX as int);
        lemma_mean_in_range(discharge_sum as int, k as int, i32::MIN as int, i32::MAX as int);
    }
    let charge_price: i128 = floor_div(charge_sum as i128, k as i128);
    let discharge_price: i128 = floor_div(discharge_sum as i128, k as i128);
    let spread: i128 = discharge_price - charge_price;
    if spread < config.min_spread_threshold as i128 {
        return None;
    }
    let energy: u64 = config.battery_capacity_kwh;
    let efficiency: i128 = config.round_trip_efficiency_ppm as i128;
    assert(energy == config.battery_power_kw * config.duration_hours);
    assert(energy <= 0xffff_ffff * 4) by (nonlinear_arith)
        requires
            energy == config.battery_power_kw * config.duration_hours,
            config.battery_power_kw <= 0xffff_ffff,
            config.duration_hours <= 4,
    ;
    assert(-0x4_0000_0000_0000_0000 <= energy * spread <= 0x4_0000_0000_0000_0000)
        by (nonlinear_arith)
        requires
            0 <= energy <= 0xffff_ffff * 4,
            -0xffff_ffff <= spread <= 0xffff_ffff,
    ;
    let gross: i128 = energy as i128 * spread;
    assert(-0x4_0000_0000_0000_0000_0000_0000 <= gross * efficiency
        <= 0x4_0000_0000_0000_0000_0000_0000) by (nonlinear_arith)
        requires
            -0x4_0000_0000_0000_0000 <= gross <= 0x4_0000_0000_0000_0000,
            0 <= efficiency <= 0xffff_ffff,
    ;
    let revenue: i128 = floor_div(gross * efficiency, 1_000_000);
    let minutes: i64 = market.interval_minutes();
    Some(
        ArbitrageWindow {
            charge_start: charge_first as i64,
            charge_end: charge_last as i64 + minutes,
            charge_price: charge_price as i32,
            discharge_start: discharge_first as i64,
            discharge_end: discharge_last as i64 + minutes,
            discharge_price: discharge_price as i32,
            energy_kwh: energy,
            revenue,
        },
    )
}

/// The day a minute falls on, in days since 1970-01-01.
pub open spec fn day_of(minutes: int) -> int {
    minutes / 1440
}

/// First and last day a 32-bit minute count can fall on.
pub const FIRST_DAY: i32 = -1_491_309;

pub const LAST_DAY: i32 = 1_491_308;

/// Most windows one run can yield: one for each day there is.
pub const MAX_DAYS: usize = 2_982_618;

/// The quotes of one market, in input order.
pub open spec fn market_quotes(prices: Seq<PriceData>, market: MarketType) -> Seq<Quote>
    decreases prices.len(),
{
    if prices.len() == 0 {
        Seq::empty()
    } else {
        let rest = market_quotes(prices.drop_last(), market);
        let p = prices.last();
        if p.market == market {
            rest.push(Quote { timestamp: p.timestamp, price: p.price })
        } else {
            rest
        }
    }
}

/// The days that `quotes` fall on, each once, in order of first appearance.
pub open spec fn days_seen(quotes: Seq<Quote>) -> Seq<int>
    decreases quotes.len(),
{
    if quotes.len() == 0 {
        Seq::empty()
    } else {
        let rest = days_seen(quotes.drop_last());
        let day = day_of(quotes.last().timestamp as int);
        if rest.contains(day) {
            rest
        } else {
            rest.push(day)
        }
    }
}

/// The quotes that fall on `day`, in input order.
pub open spec fn quotes_on_day(quotes: Seq<Quote>, day: int) -> Seq<Quote>
    decreases quotes.len(),
{
    if quotes.len() == 0 {
        Seq::empty()
    } else {
        let rest = quotes_on_day(quotes.drop_last(), day);
        if day_of(quotes.last().timestamp as int) == day {
            rest.push(quotes.last())
        } else {
            rest
        }
    }
}

/// The windows of the days `days`, in that order; a day without a window
/// adds nothing.
pub open spec fn windows_over(
    quotes: Seq<Quote>,
    days: Seq<int>,
    config: TbxConfig,
    market: MarketType,
) -> Seq<ArbitrageWindow>
    decreases days.len(),
{
    if days.len() == 0 {
        Seq::empty()
    } else {
        let rest = windows_over(quotes, days.drop_last(), config, market);
        match day_window(quotes_on_day(quotes, days.last()), config, market) {
            Some(w) => rest.push(w),
            None => rest,
        }
    }
}

/// Every window of `quotes`: days are taken in order of first appearance and
/// each is judged on its own.
pub open spec fn tbx_windows(quotes: Seq<Quote>, config: TbxConfig, market: MarketType) -> Seq<
    ArbitrageWindow,
> {
    windows_over(quotes, days_seen(quotes), config, market)
}

/// The windows of the real-time prices: each of the two real-time markets
/// is judged on its own, with its own number of intervals to the hour; the
/// windows of the five-minute market come first.
pub open spec fn real_time_windows(prices: Seq<PriceData>, config: TbxConfig) -> Seq<
    ArbitrageWindow,
> {
    tbx_windows(
        market_quotes(prices, MarketType::RealTime5Min),
        config,
        MarketType::RealTime5Min,
    ) + tbx_windows(
        market_quotes(prices, MarketType::RealTime15Min),
        config,
        MarketType::RealTime15Min,
    )
}

/// Largest cycle of the day over the battery's capacity, parts per million.
pub open spec fn utilization(
    da_windows: Seq<ArbitrageWindow>,
    rt_windows: Seq<ArbitrageWindow>,
    capacity_kwh: int,
) -> int {
    let da = peak_energy(da_windows);
    let rt = peak_energy(rt_windows);
    let peak = if da >= rt {
        da
    } else {
        rt
    };
    if capacity_kwh > 0 {
        peak * 1_000_000 / capacity_kwh
    } else {
        0
    }
}

/// Every window is consistent with `config` and moves the full capacity.
pub open spec fn full_cycles(windows: Seq<ArbitrageWindow>, config: TbxConfig) -> bool {
    forall|i: int|
        0 <= i < windows.len() ==> (#[trigger] windows[i]).consistent_with(config) && windows[i].energy_kwh
            == config.battery_capacity_kwh
}

/// The same quotes give the same windows, whatever else differs between two
/// runs: the selection is a function of the quotes in their recorded order,
/// the profile and the market.
pub proof fn lemma_selection_is_deterministic(
    first: Seq<Quote>,
    second: Seq<Quote>,
    config: TbxConfig,
    market: MarketType,
)
    requires
        first =~= second,
    ensures
        day_window(first, config, market) == day_window(second, config, market),
        tbx_windows(first, config, market) == tbx_windows(second, config, market),
{
}

/// A day with fewer priced intervals than two full sets yields no window.
pub proof fn lemma_short_day_has_no_window(
    quotes: Seq<Quote>,
    config: TbxConfig,
    market: MarketType,
)
    requires
        quotes.len() < 2 * config.duration_hours * market.spec_intervals_per_hour(),
    ensures
        day_window(quotes, config, market) is None,
{
    assert(2 * config.duration_hours * market.spec_intervals_per_hour() == 2 * set_size(
        config,
        market,
    )) by (nonlinear_arith)
        requires
            set_size(config, market) == config.duration_hours * market.spec_intervals_per_hour(),
    ;
}

/// What a window consistent with a well-formed profile can earn or lose.
pub proof fn lemma_revenue_bound(w: ArbitrageWindow, config: TbxConfig)
    requires
        config.well_formed(),
        w.consistent_with(config),
    ensures
        -0x4_0000_0000_0000_0000_0000_0000 <= w.revenue <= 0x4_0000_0000_0000_0000_0000_0000,
        w.energy_kwh <= 0x4_0000_0000,
        -0x4_0000_0000_0000_0000 <= w.spread() * w.energy_kwh <= 0x4_0000_0000_0000_0000,
{
    let energy = w.energy_kwh as int;
    let spread = w.spread();
    let efficiency = config.round_trip_efficiency_ppm as int;
    assert(config.battery_capacity_kwh <= 0xffff_ffff * 4) by (nonlinear_arith)
        requires
            config.battery_capacity_kwh == config.battery_power_kw * config.duration_hours,
            config.battery_power_kw <= 0xffff_ffff,
            config.duration_hours <= 4,
    ;
    assert(-0x4_0000_0000_0000_0000 <= energy * spread <= 0x4_0000_0000_0000_0000)
        by (nonlinear_arith)
        requires
            0 <= energy <= 0xffff_ffff * 4,
            -0xffff_ffff <= spread <= 0xffff_ffff,
    ;
    assert(spread * energy == energy * spread) by (nonlinear_arith);
    let gross = energy * spread;
    assert(-0x4_0000_0000_0000_0000_0000_0000 <= gross * efficiency
        <= 0x4_0000_0000_0000_0000_0000_0000) by (nonlinear_arith)
        requires
            -0x4_0000_0000_0000_0000 <= gross <= 0x4_0000_0000_0000_0000,
            0 <= efficiency <= 0xffff_ffff,
    ;
    lemma_mean_in_range(
        gross * efficiency,
        1_000_000,
        -0x4_0000_0000_0000_0000_0000_0000,
        0x4_0000_0000_0000_0000_0000_0000,
    );
}

/// The day of every quote is among the days seen.
pub proof fn lemma_day_is_seen(quotes: Seq<Quote>, i: int)
    requires
        0 <= i < quotes.len(),
    ensures
        days_seen(quotes).contains(day_of(quotes[i].timestamp as int)),
    decreases quotes.len(),
{
    let rest = days_seen(quotes.drop_last());
    let last_day = day_of(quotes.last().timestamp as int);
    if i == quotes.len() - 1 {
        if rest.contains(last_day) {
        } else {
            assert(rest.push(last_day)[rest.len() as int] == last_day);
        }
    } else {
        lemma_day_is_seen(quotes.drop_last(), i);
        let day = day_of(quotes[i].timestamp as int);
        let m = choose|m: int| 0 <= m < rest.len() && rest[m] == day;
        if !rest.contains(last_day) {
            assert(rest.push(last_day)[m] == day);
        }
    }
}

/// A day holds no more quotes than there are.
pub proof fn lemma_quotes_on_day_len(quotes: Seq<Quote>, day: int)
    ensures
        quotes_on_day(quotes, day).len() <= quotes.len(),
    decreases quotes.len(),
{
    if quotes.len() > 0 {
        lemma_quotes_on_day_len(quotes.drop_last(), day);
    }
}

/// Full cycles of a well-formed profile are within what sums can take.
pub proof fn lemma_full_cycles_bounded(windows: Seq<ArbitrageWindow>, config: TbxConfig)
    requires
        config.well_formed(),
        full_cycles(windows, config),
        windows.len() <= MAX_WINDOWS,
    ensures
        windows_bounded(windows),
{
    assert forall|i: int| 0 <= i < windows.len() implies window_bounded(#[trigger] windows[i]) by {
        lemma_revenue_bound(windows[i], config);
    }
}

proof fn lemma_days_seen_props(quotes: Seq<Quote>)
    ensures
        days_seen(quotes).no_duplicates(),
        forall|i: int|
            0 <= i < days_seen(quotes).len() ==> FIRST_DAY <= #[trigger] days_seen(quotes)[i]
                <= LAST_DAY,
        days_seen(quotes).len() <= MAX_DAYS,
    decreases quotes.len(),
{
    if quotes.len() > 0 {
        lemma_days_seen_props(quotes.drop_last());
    }
    lemma_distinct_in_range(days_seen(quotes), FIRST_DAY as int, LAST_DAY + 1);
}

/// The day a minute falls on.
pub fn day_number(minutes: i32) -> (day: i32)
    ensures
        day == day_of(minutes as int),
        FIRST_DAY <= day <= LAST_DAY,
{
    floor_div(minutes as i128, 1440) as i32
}

/// Picks out the quotes of one market.
pub fn group_prices_by_interval(prices: &Vec<PriceData>, market: MarketType) -> (quotes: Vec<Quote>)
    ensures
        quotes@ == market_quotes(prices@, market),
{
    let mut quotes: Vec<Quote> = Vec::new();
    let mut i: usize = 0;
    while i < prices.len()
        invariant
            i <= prices.len(),
            quotes@ == market_quotes(prices@.take(i as int), market),
        decreases prices.len() - i,
    {
        proof {
            assert(prices@.take(i + 1).drop_last() =~= prices@.take(i as int));
        }
        if prices[i].market == market {
            quotes.push(Quote { timestamp: prices[i].timestamp, price: prices[i].price });
        }
        i = i + 1;
    }
    assert(prices@.take(prices.len() as int) =~= prices@);
    quotes
}

/// A day that is not among the days seen holds no quote.
pub proof fn lemma_unseen_day_is_empty(quotes: Seq<Quote>, day: int)
    requires
        !days_seen(quotes).contains(day),
    ensures
        quotes_on_day(quotes, day) =~= Seq::<Quote>::empty(),
    decreases quotes.len(),
{
    if quotes.len() > 0 {
        let rest = days_seen(quotes.drop_last());
        let last_day = day_of(quotes.last().timestamp as int);
        if rest.contains(day) {
            let m = choose|m: int| 0 <= m < rest.len() && rest[m] == day;
            if !rest.contains(last_day) {
                assert(rest.push(last_day)[m] == day);
            }
        }
        if last_day == day {
            if !rest.contains(last_day) {
                assert(rest.push(last_day)[rest.len() as int] == day);
            }
        }
        lemma_unseen_day_is_empty(quotes.drop_last(), day);
    }
}

/// The quotes sorted into days in one pass: the days in order of first
/// appearance, and for each day its quotes in input order.
pub fn sort_into_days(quotes: &Vec<Quote>) -> (r: (Vec<i32>, Vec<Vec<Quote>>))
    ensures
        r.0@.map_values(|d: i32| d as int) == days_seen(quotes@),
        r.0.len() <= MAX_DAYS,
        r.1.len() == r.0.len(),
        forall|a: int|
            0 <= a < r.1.len() ==> (#[trigger] r.1[a])@ == quotes_on_day(quotes@, r.0[a] as int),
{
    broadcast use vstd::std_specs::hash::group_hash_axioms;

    let mut days: Vec<i32> = Vec::new();
    let mut buckets: Vec<Vec<Quote>> = Vec::new();
    let mut table: HashMap<i32, usize> = HashMap::new();
    let mut i: usize = 0;
    while i < quotes.len()
        invariant
            i <= quotes.len(),
            days@.map_values(|d: i32| d as int) == days_seen(quotes@.take(i as int)),
            buckets.len() == days.len(),
            forall|a: int|
                0 <= a < buckets.len() ==> (#[trigger] buckets[a])@ == quotes_on_day(
                    quotes@.take(i as int),
                    days[a] as int,
                ),
            forall|d: i32| #[trigger]
                table@.contains_key(d) ==> table@[d] < days.len() && days[table@[d] as int] == d,
            forall|a: int| 0 <= a < days.len() ==> table@.contains_key(#[trigger] days[a]),
        decreases quotes.len() - i,
    {
        let quote: Quote = quotes[i];
        let day: i32 = day_number(quote.timestamp);
        let ghost seen = days@.map_values(|d: i32| d as int);
        let ghost before = quotes@.take(i as int);
        let ghost after = quotes@.take(i + 1);
        let ghost old_days = days@;
        let ghost old_buckets = buckets@;
        proof {
            assert(after.drop_last() =~= before);
            assert(after.last() == quote);
            lemma_days_seen_props(before);
            assert forall|x: int|
                quotes_on_day(after, x) == (if day == x {
                    quotes_on_day(before, x).push(quote)
                } else {
                    quotes_on_day(before, x)
                }) by {}
        }
        match table.get(&day) {
            Some(place) => {
                let at: usize = *place;
                proof {
                    assert(seen[at as int] == day);
                    assert(seen.contains(day as int));
                    assert forall|a: int| 0 <= a < days.len() && a != at implies days[a] != day by {
                        assert(seen[a] == days[a]);
                        assert(seen[at as int] == days[at as int]);
                    }
                }
                buckets[at].push(quote);
                proof {
                    assert forall|a: int| 0 <= a < buckets.len() implies (#[trigger] buckets[a])@
                        == quotes_on_day(after, days[a] as int) by {
                        if a != at {
                            assert(buckets[a] == old_buckets[a]);
                        }
                    }
                }
            },
            None => {
                proof {
                    assert(!seen.contains(day as int)) by {
                        if seen.contains(day as int) {
                            let m = choose|m: int| 0 <= m < seen.len() && seen[m] == day;
                            assert(days[m] == day);
                            assert(table@.contains_key(days[m]));
                        }
                    }
                    lemma_unseen_day_is_empty(before, day as int);
                }
                let mut bucket: Vec<Quote> = Vec::new();
                bucket.push(quote);
                days.push(day);
                buckets.push(bucket);
                table.insert(day, days.len() - 1);
                proof {
                    assert(days@.map_values(|d: i32| d as int) =~= seen.push(day as int));
                    assert forall|a: int| 0 <= a < buckets.len() implies (#[trigger] buckets[a])@
                        == quotes_on_day(after, days[a] as int) by {
                        if a < old_buckets.len() {
                            assert(buckets[a] == old_buckets[a]);
                            assert(days[a] == old_days[a]);
                            assert(seen[a] == old_days[a]);
                            assert(seen.contains(old_days[a] as int));
                        } else {
                            assert(buckets[a]@ =~= Seq::<Quote>::empty().push(quote));
                        }
                    }
                    assert forall|d: i32| #[trigger] table@.contains_key(d) implies table@[d]
                        < days.len() && days[table@[d] as int] == d by {
                        if d != day {
                            assert(days[table@[d] as int] == old_days[table@[d] as int]);
                        }
                    }
                    assert forall|a: int| 0 <= a < days.len() implies table@.contains_key(
                        #[trigger] days[a],
                    ) by {
                        if a < old_days.len() {
                            assert(days[a] == old_days[a]);
                        }
                    }
                }
            },
        }
        i = i + 1;
    }
    proof {
        assert(quotes@.take(quotes.len() as int) =~= quotes@);
        lemma_days_seen_props(quotes@);
    }
    (days, buckets)
}

/// The days that `quotes` fall on, each once, in order of first appearance.
pub fn group_by_day(quotes: &Vec<Quote>) -> (days: Vec<i32>)
    ensures
        days@.map_values(|d: i32| d as int) == days_seen(quotes@),
        days.len() <= MAX_DAYS,
{
    let (days, _buckets) = sort_into_days(quotes);
    days
}

/// Largest energy among `windows`.
fn largest_energy(windows: &Vec<ArbitrageWindow>) -> (peak: u64)
    ensures
        peak == peak_energy(windows@),
        forall|i: int| 0 <= i < windows.len() ==> (#[trigger] windows[i]).energy_kwh <= peak,
        windows.len() > 0 ==> exists|i: int| 0 <= i < windows.len() && windows[i].energy_kwh == peak,
        windows.len() == 0 ==> peak == 0,
{
    let mut peak: u64 = 0;
    let mut i: usize = 0;
    while i < windows.len()
        invariant
            i <= windows.len(),
            peak == peak_energy(windows@.take(i as int)),
            forall|m: int| 0 <= m < i ==> (#[trigger] windows[m]).energy_kwh <= peak,
            i > 0 ==> exists|m: int| 0 <= m < i && windows[m].energy_kwh == peak,
            i == 0 ==> peak == 0,
        decreases windows.len() - i,
    {
        proof {
            assert(windows@.take(i + 1).drop_last() =~= windows@.take(i as int));
        }
        if windows[i].energy_kwh > peak {
            peak = windows[i].energy_kwh;
        }
        i = i + 1;
    }
    assert(windows@.take(windows.len() as int) =~= windows@);
    peak
}

/// Runs the window selector over price records.
pub struct TbxCalculator {
    config: TbxConfig,
}

impl TbxCalculator {
    #[verifier::type_invariant]
    spec fn holds_valid_profile(&self) -> bool {
        self.config.well_formed()
    }

    /// The profile the calculator was made with.
    pub closed spec fn config(&self) -> TbxConfig {
        self.config
    }

    pub fn new(config: TbxConfig) -> (calculator: Self)
        requires
            config.well_formed(),
        ensures
            calculator.config() == config,
    {
        Self { config }
    }

    /// The profile the calculator was made with.
    pub fn profile(&self) -> (config: TbxConfig)
        ensures
            config == self.config(),
            config.well_formed(),
    {
        proof {
            use_type_invariant(self);
        }
        self.config
    }

    /// Every window of `quotes`: one for each day that has enough data and
    /// enough spread, days in order of first appearance.
    pub fn calculate_tbx_windows(&self, quotes: &Vec<Quote>, market: MarketType) -> (windows: Vec<
        ArbitrageWindow,
    >)
        ensures
            windows@ == tbx_windows(quotes@, self.config(), market),
            full_cycles(windows@, self.config()),
            windows.len() <= MAX_DAYS,
    {
        let config: TbxConfig = self.profile();
        let (days, buckets) = sort_into_days(quotes);
        let ghost all_days = days_seen(quotes@);
        let mut windows: Vec<ArbitrageWindow> = Vec::new();
        let mut d: usize = 0;
        while d < days.len()
            invariant
                d <= days.len() <= MAX_DAYS,
                buckets.len() == days.len(),
                forall|a: int|
                    0 <= a < buckets.len() ==> (#[trigger] buckets[a])@ == quotes_on_day(
                        quotes@,
                        days[a] as int,
                    ),
                config.well_formed(),
                config == self.config(),
                all_days == days@.map_values(|x: i32| x as int),
                windows@ == windows_over(quotes@, all_days.take(d as int), config, market),
                full_cycles(windows@, config),
                windows.len() <= d,
            decreases days.len() - d,
        {
            proof {
                assert(all_days.take(d + 1).drop_last() =~= all_days.take(d as int));
                assert(all_days.take(d + 1).last() == days[d as int] as int);
            }
            match select_day_window(&buckets[d], &config, market) {
                Some(w) => {
                    windows.push(w);
                },
                None => {},
            }
            d = d + 1;
        }
        assert(all_days.take(days.len() as int) =~= all_days);
        windows
    }

    /// Energy-weighted mean spread of `windows`.
    fn calculate_avg_spread(&self, windows: &Vec<ArbitrageWindow>) -> (avg: i64)
        requires
            windows_bounded(windows@),
        ensures
            avg == average_spread(windows@),
    {
        average_spread_of(windows)
    }

    /// Largest cycle of the day over the battery's capacity.
    fn calculate_utilization(
        &self,
        da_windows: &Vec<ArbitrageWindow>,
        rt_windows: &Vec<ArbitrageWindow>,
    ) -> (share: u64)
        requires
            full_cycles(da_windows@, self.config()),
            full_cycles(rt_windows@, self.config()),
        ensures
            share == utilization(
                da_windows@,
                rt_windows@,
                self.config().battery_capacity_kwh as int,
            ),
            share <= 1_000_000,
    {
        let config: TbxConfig = self.profile();
        let da: u64 = largest_energy(da_windows);
        let rt: u64 = largest_energy(rt_windows);
        let peak: u64 = if da >= rt {
            da
        } else {
            rt
        };
        let capacity: u64 = config.battery_capacity_kwh;
        assert(peak <= capacity);
        if capacity > 0 {
            proof {
                assert(0 <= peak * 1_000_000 <= capacity * 1_000_000) by (nonlinear_arith)
                    requires
                        0 <= peak <= capacity,
                ;
                lemma_mean_in_range(peak * 1_000_000, capacity as int, 0, 1_000_000);
            }
            let scaled: u128 = peak as u128 * 1_000_000;
            (scaled / capacity as u128) as u64
        } else {
            0
        }
    }

    /// Idealized arbitrage of one resource over the prices given, market by
    /// market.
    ///
    /// Day-ahead prices are cycled hour by hour, five-minute prices by five
    /// minutes and quarter-hour prices by quarter hours; the real-time
    /// windows are those of the two real-time markets together. The blended
    /// figures are left empty.
    pub fn calculate_daily_arbitrage(
        &self,
        prices: &Vec<PriceData>,
        resource_name: &str,
        settlement_point: &str,
        date: i32,
    ) -> (result: TbxResult)
        ensures
            result.resource_name@ == resource_name@,
            result.settlement_point@ == settlement_point@,
            result.date == date,
            result.config == self.config(),
            result.da_windows@ == tbx_windows(
                market_quotes(prices@, MarketType::DayAhead),
                self.config(),
                MarketType::DayAhead,
            ),
            result.rt_windows@ == real_time_windows(prices@, self.config()),
            full_cycles(result.da_windows@, self.config()),
            full_cycles(result.rt_windows@, self.config()),
            result.revenue_da == total_revenue(result.da_windows@),
            result.revenue_rt == total_revenue(result.rt_windows@),
            result.avg_spread_da == average_spread(result.da_windows@),
            result.avg_spread_rt == average_spread(result.rt_windows@),
            result.utilization_factor == utilization(
                result.da_windows@,
                result.rt_windows@,
                self.config().battery_capacity_kwh as int,
            ),
            result.cycles_per_day == result.utilization_factor,
            result.blended_windows@.len() == 0,
            result.revenue_blended == 0,
            result.avg_spread_blended == 0,
    {
        let config: TbxConfig = self.profile();
        let mut result: TbxResult = TbxResult::new(
            resource_name.to_owned(),
            settlement_point.to_owned(),
            date,
            config,
        );
        let da_quotes: Vec<Quote> = group_prices_by_interval(prices, MarketType::DayAhead);
        let five_quotes: Vec<Quote> = group_prices_by_interval(prices, MarketType::RealTime5Min);
        let quarter_quotes: Vec<Quote> = group_prices_by_interval(
            prices,
            MarketType::RealTime15Min,
        );
        let da_windows: Vec<ArbitrageWindow> = self.calculate_tbx_windows(
            &da_quotes,
            MarketType::DayAhead,
        );
        let mut rt_windows: Vec<ArbitrageWindow> = self.calculate_tbx_windows(
            &five_quotes,
            MarketType::RealTime5Min,
        );
        let mut quarter_windows: Vec<ArbitrageWindow> = self.calculate_tbx_windows(
            &quarter_quotes,
            MarketType::RealTime15Min,
        );
        let ghost five = rt_windows@;
        let ghost quarter = quarter_windows@;
        rt_windows.append(&mut quarter_windows);
        proof {
            assert(rt_windows@ == five + quarter);
            assert forall|i: int| 0 <= i < rt_windows.len() implies (
            #[trigger] rt_windows[i]).consistent_with(config) && rt_windows[i].energy_kwh
                == config.battery_capacity_kwh by {
                if i < five.len() {
                    assert(rt_windows[i] == five[i]);
                } else {
                    assert(rt_windows[i] == quarter[i - five.len()]);
                }
            }
        }
        proof {
            lemma_full_cycles_bounded(da_windows@, config);
            lemma_full_cycles_bounded(rt_windows@, config);
        }
        result.revenue_da = sum_revenue(&da_windows);
        result.avg_spread_da = self.calculate_avg_spread(&da_windows);
        result.revenue_rt = sum_revenue(&rt_windows);
        result.avg_spread_rt = self.calculate_avg_spread(&rt_windows);
        result.utilization_factor = self.calculate_utilization(&da_windows, &rt_windows);
        result.cycles_per_day = result.utilization_factor;
        result.da_windows = da_windows;
        result.rt_windows = rt_windows;
        result
    }
}

} // verus!
