use bess_economics::calculator::group_by_day;
use bess_economics::calculator::group_prices_by_interval;
use bess_economics::calculator::select_day_window;
use bess_economics::calculator::sort_into_days;
use bess_economics::calculator::day_number;
use bess_economics::calculator::Quote;
use bess_economics::calculator::TbxCalculator;
use bess_economics::models::ArbitrageWindow;
use bess_economics::models::MarketType;
use bess_economics::models::PriceData;
use bess_economics::models::TbxConfig;
use chrono::DateTime;
use chrono::Duration;
use chrono::Utc;

fn minutes(t: DateTime<Utc>) -> i32 {
    (t.timestamp() / 60) as i32
}

fn milli(dollars_per_mwh: f64) -> i32 {
    (dollars_per_mwh * 1000.0).round() as i32
}

fn hourly(prices: &[i32]) -> Vec<Quote> {
    prices
        .iter()
        .enumerate()
        .map(|(h, p)| Quote { timestamp: (h as i32) * 60, price: *p })
        .collect()
}

#[test]
fn test_tb2_calculation() {
    let config = TbxConfig::new_tb2(100_000);
    let calculator = TbxCalculator::new(config);

    let mut prices = vec![];
    let base_time = DateTime::parse_from_rfc3339("2024-01-01T00:00:00Z")
        .unwrap()
        .with_timezone(&Utc);

    for hour in 0..24 {
        let price = if hour < 6 || hour > 20 {
            20.0
        } else if hour >= 18 && hour <= 20 {
            100.0
        } else {
            50.0
        };

        prices.push(PriceData {
            timestamp: minutes(base_time + Duration::hours(hour)),
            settlement_point: "TEST_NODE".to_string(),
            price: milli(price),
            market: MarketType::DayAhead,
        });
    }

    let result = calculator.calculate_daily_arbitrage(
        &prices,
        "TEST_BATTERY",
        "TEST_NODE",
        base_time.date_naive().to_epoch_days(),
    );

    assert!(result.revenue_da > 0);
    assert!(!result.da_windows.is_empty());
    assert!(result.avg_spread_da > milli(50.0) as i64);
}

#[test]
fn six_fifteen_three_day_earns_13600_dollars() {
    let mut prices: Vec<i32> = Vec::new();
    for _ in 0..6 {
        prices.push(20_000);
    }
    for _ in 0..15 {
        prices.push(50_000);
    }
    for _ in 0..3 {
        prices.push(100_000);
    }
    let quotes = hourly(&prices);
    let mut config = TbxConfig::new_tb2(100_000);
    config.round_trip_efficiency_ppm = 850_000;
    config.min_spread_threshold = 5_000;
    let w = select_day_window(&quotes, &config, MarketType::DayAhead).unwrap();
    assert_eq!(w.charge_price, 20_000);
    assert_eq!(w.discharge_price, 100_000);
    assert_eq!(w.discharge_price - w.charge_price, 80_000);
    assert_eq!(w.energy_kwh, 200_000);
    assert_eq!(w.revenue, 13_600_000_000);
    // the two cheapest hours are the first two $20 hours, the two dearest
    // the last two $100 hours
    assert_eq!(w.charge_start, 0);
    assert_eq!(w.charge_end, 60 + 60);
    assert_eq!(w.discharge_start, 22 * 60);
    assert_eq!(w.discharge_end, 23 * 60 + 60);
}

#[test]
fn three_priced_hours_give_no_tb2_window() {
    let quotes = hourly(&[10_000, 50_000, 90_000]);
    let config = TbxConfig::new_tb2(100_000);
    assert_eq!(select_day_window(&quotes, &config, MarketType::DayAhead), None);
    let calculator = TbxCalculator::new(config);
    assert!(calculator.calculate_tbx_windows(&quotes, MarketType::DayAhead).is_empty());
}

#[test]
fn four_priced_hours_are_enough_for_tb2() {
    let quotes = hourly(&[10_000, 50_000, 90_000, 30_000]);
    let config = TbxConfig::new_tb2(1_000);
    let w = select_day_window(&quotes, &config, MarketType::DayAhead).unwrap();
    assert_eq!(w.charge_price, 20_000);
    assert_eq!(w.discharge_price, 70_000);
    assert_eq!(w.charge_start, 0);
    assert_eq!(w.charge_end, 3 * 60 + 60);
    assert_eq!(w.discharge_start, 60);
    assert_eq!(w.discharge_end, 2 * 60 + 60);
}

#[test]
fn single_quote_day_is_skipped_even_for_tb1() {
    let quotes = hourly(&[10_000]);
    let config = TbxConfig::new_tb1(1_000);
    assert_eq!(select_day_window(&quotes, &config, MarketType::DayAhead), None);
}

#[test]
fn spread_under_threshold_is_skipped_and_at_threshold_kept() {
    let config = TbxConfig::new_tb1(1_000);
    let under = hourly(&[20_000, 24_999]);
    assert_eq!(select_day_window(&under, &config, MarketType::DayAhead), None);
    let at = hourly(&[20_000, 25_000]);
    let w = select_day_window(&at, &config, MarketType::DayAhead).unwrap();
    assert_eq!(w.revenue, 1_000 * 5_000 * 850_000 / 1_000_000);
}

#[test]
fn ties_go_to_the_earlier_record() {
    // four equal cheap prices: the charge set is the first two records
    let quotes = vec![
        Quote { timestamp: 600, price: 10_000 },
        Quote { timestamp: 0, price: 10_000 },
        Quote { timestamp: 300, price: 10_000 },
        Quote { timestamp: 120, price: 10_000 },
        Quote { timestamp: 720, price: 90_000 },
        Quote { timestamp: 780, price: 90_000 },
        Quote { timestamp: 840, price: 90_000 },
    ];
    let config = TbxConfig::new_tb2(1_000);
    let w = select_day_window(&quotes, &config, MarketType::DayAhead).unwrap();
    assert_eq!(w.charge_start, 0);
    assert_eq!(w.charge_end, 600 + 60);
    // of the three equal dear prices the last two in record order are the top
    assert_eq!(w.discharge_start, 780);
    assert_eq!(w.discharge_end, 840 + 60);
}

#[test]
fn selection_is_repeatable() {
    let quotes = hourly(&[30_000, 10_000, 10_000, 80_000, 80_000, 10_000, 45_000, 80_000]);
    let config = TbxConfig::new_tb2(5_000);
    let first = select_day_window(&quotes, &config, MarketType::DayAhead);
    let second = select_day_window(&quotes, &config, MarketType::DayAhead);
    assert_eq!(first, second);
    assert!(first.is_some());
}

#[test]
fn window_is_consistent_with_its_profile() {
    let quotes = hourly(&[-5_000, 12_345, 99_999, 40_001, 7, 18_000]);
    let mut config = TbxConfig::new_tb2(12_345);
    config.round_trip_efficiency_ppm = 812_345;
    let w: ArbitrageWindow = select_day_window(&quotes, &config, MarketType::DayAhead).unwrap();
    assert!(w.energy_kwh <= config.battery_capacity_kwh);
    let expected = (w.energy_kwh as i128)
        * ((w.discharge_price - w.charge_price) as i128)
        * (config.round_trip_efficiency_ppm as i128);
    assert_eq!(w.revenue, expected.div_euclid(1_000_000));
    // mean of the two cheapest, -5000 and 7, rounds toward negative infinity
    assert_eq!(w.charge_price, -2_497);
    assert_eq!(w.discharge_price, 70_000);
}

#[test]
fn real_time_day_uses_quarter_hours() {
    // TB1 at 15 minutes: four intervals each side, so eight are needed
    let mut quotes: Vec<Quote> = Vec::new();
    for i in 0..7 {
        quotes.push(Quote { timestamp: i * 15, price: 10_000 + i * 2_000 });
    }
    let config = TbxConfig::new_tb1(4_000);
    assert_eq!(select_day_window(&quotes, &config, MarketType::RealTime15Min), None);
    quotes.push(Quote { timestamp: 7 * 15, price: 24_000 });
    let w = select_day_window(&quotes, &config, MarketType::RealTime15Min).unwrap();
    assert_eq!(w.charge_price, (10_000 + 12_000 + 14_000 + 16_000) / 4);
    assert_eq!(w.discharge_price, (18_000 + 20_000 + 22_000 + 24_000) / 4);
    assert_eq!(w.energy_kwh, 4_000);
    assert_eq!(w.charge_end, 3 * 15 + 15);
    assert_eq!(w.discharge_end, 7 * 15 + 15);
}

#[test]
fn days_are_judged_one_by_one_in_order_of_appearance() {
    let day = 1440;
    let mut quotes: Vec<Quote> = Vec::new();
    // day 3 first, then day 1, then day 2 with too little spread
    for (d, lo, hi) in [(3, 10_000, 90_000), (1, 20_000, 50_000), (2, 30_000, 31_000)] {
        quotes.push(Quote { timestamp: d * day, price: lo });
        quotes.push(Quote { timestamp: d * day + 60, price: hi });
    }
    assert_eq!(group_by_day(&quotes), vec![3, 1, 2]);
    let calculator = TbxCalculator::new(TbxConfig::new_tb1(1_000));
    let windows = calculator.calculate_tbx_windows(&quotes, MarketType::DayAhead);
    assert_eq!(windows.len(), 2);
    assert_eq!(windows[0].charge_start, 3 * 1440);
    assert_eq!(windows[1].charge_start, 1440);
}

#[test]
fn day_number_rounds_down_before_the_epoch() {
    assert_eq!(day_number(0), 0);
    assert_eq!(day_number(1439), 0);
    assert_eq!(day_number(1440), 1);
    assert_eq!(day_number(-1), -1);
    assert_eq!(day_number(-1440), -1);
    assert_eq!(day_number(-1441), -2);
}

fn price(timestamp: i32, price: i32, market: MarketType) -> PriceData {
    PriceData { timestamp, settlement_point: "N".to_string(), price, market }
}

#[test]
fn daily_arbitrage_splits_markets_and_sums_windows() {
    let mut prices: Vec<PriceData> = Vec::new();
    for (h, p) in [(0, 10_000), (1, 20_000), (2, 70_000), (3, 80_000)] {
        prices.push(price(h * 60, p, MarketType::DayAhead));
    }
    for i in 0..8 {
        prices.push(price(i * 15, if i < 4 { 5_000 } else { 45_000 }, MarketType::RealTime15Min));
    }
    assert_eq!(group_prices_by_interval(&prices, MarketType::DayAhead).len(), 4);
    assert_eq!(group_prices_by_interval(&prices, MarketType::RealTime15Min).len(), 8);
    assert_eq!(group_prices_by_interval(&prices, MarketType::RealTime5Min).len(), 0);
    let calculator = TbxCalculator::new(TbxConfig::new_tb1(2_000));
    let r = calculator.calculate_daily_arbitrage(&prices, "B", "N", 0);
    assert_eq!(r.resource_name, "B");
    assert_eq!(r.settlement_point, "N");
    assert_eq!(r.da_windows.len(), 1);
    assert_eq!(r.rt_windows.len(), 1);
    assert_eq!(r.revenue_da, 2_000 * 70_000 * 850_000 / 1_000_000);
    assert_eq!(r.revenue_rt, 2_000 * 40_000 * 850_000 / 1_000_000);
    assert_eq!(r.avg_spread_da, 70_000);
    assert_eq!(r.avg_spread_rt, 40_000);
    assert_eq!(r.utilization_factor, 1_000_000);
    assert_eq!(r.cycles_per_day, 1_000_000);
    assert!(r.blended_windows.is_empty());
    assert_eq!(r.revenue_blended, 0);
    assert_eq!(r.best_revenue(), r.revenue_da);
    assert_eq!(r.best_strategy(), "DayAhead");
}

#[test]
fn eight_five_minute_prices_are_too_few_for_one_hour() {
    // 100 MW for one hour needs twelve five-minute intervals on each side
    let calculator = TbxCalculator::new(TbxConfig::new_tb1(100_000));
    let base = minutes(
        DateTime::parse_from_rfc3339("2024-01-01T00:00:00Z").unwrap().with_timezone(&Utc),
    );
    let mut prices: Vec<PriceData> = Vec::new();
    for i in 0..8 {
        prices.push(price(
            base + 5 * i,
            if i < 4 { milli(10.0) } else { milli(50.0) },
            MarketType::RealTime5Min,
        ));
    }
    let r = calculator.calculate_daily_arbitrage(&prices, "B", "N", day_number(base));
    assert!(r.rt_windows.is_empty());
    assert_eq!(r.revenue_rt, 0);
    assert_eq!(r.avg_spread_rt, 0);
    assert_eq!(r.utilization_factor, 0);
}

#[test]
fn each_real_time_market_is_judged_with_its_own_intervals() {
    let calculator = TbxCalculator::new(TbxConfig::new_tb1(12_000));
    let mut prices: Vec<PriceData> = Vec::new();
    // eight quarter hours: enough for one hour each side
    for i in 0..8 {
        prices.push(price(i * 15, if i < 4 { 5_000 } else { 45_000 }, MarketType::RealTime15Min));
    }
    // twenty-four five-minute prices: enough for one hour each side
    for i in 0..24 {
        prices.push(price(i * 5, if i < 12 { 1_000 } else { 31_000 }, MarketType::RealTime5Min));
    }
    let r = calculator.calculate_daily_arbitrage(&prices, "B", "N", 0);
    assert_eq!(r.rt_windows.len(), 2);
    // the five-minute window comes first
    let five = r.rt_windows[0];
    assert_eq!((five.charge_price, five.discharge_price), (1_000, 31_000));
    assert_eq!((five.charge_start, five.charge_end), (0, 55 + 5));
    assert_eq!((five.discharge_start, five.discharge_end), (60, 115 + 5));
    assert_eq!(five.energy_kwh, 12_000);
    let quarter = r.rt_windows[1];
    assert_eq!((quarter.charge_price, quarter.discharge_price), (5_000, 45_000));
    assert_eq!((quarter.charge_start, quarter.charge_end), (0, 45 + 15));
    assert_eq!(r.revenue_rt, 12_000 * (30_000 + 40_000) * 850_000 / 1_000_000);
    assert_eq!(r.avg_spread_rt, 35_000);
    // twenty-three five-minute prices are one too few
    prices.pop();
    let short = calculator.calculate_daily_arbitrage(&prices, "B", "N", 0);
    assert_eq!(short.rt_windows.len(), 1);
    assert_eq!(short.rt_windows[0].discharge_price, 45_000);
}

#[test]
fn best_strategy_prefers_blended_then_real_time_on_ties() {
    let calculator = TbxCalculator::new(TbxConfig::new_tb1(1));
    let mut r = calculator.calculate_daily_arbitrage(&Vec::new(), "B", "N", 0);
    assert_eq!(r.best_strategy(), "Blended");
    r.revenue_rt = 5;
    assert_eq!(r.best_strategy(), "RealTime");
    r.revenue_da = 5;
    assert_eq!(r.best_strategy(), "RealTime");
    r.revenue_da = 6;
    assert_eq!(r.best_strategy(), "DayAhead");
    r.revenue_blended = 6;
    assert_eq!(r.best_strategy(), "Blended");
    assert_eq!(r.best_revenue(), 6);
}

#[test]
fn quotes_are_sorted_into_days_in_one_pass() {
    let quotes = vec![
        Quote { timestamp: 3 * 1440 + 5, price: 1 },
        Quote { timestamp: -1, price: 2 },
        Quote { timestamp: 3 * 1440, price: 3 },
        Quote { timestamp: 0, price: 4 },
        Quote { timestamp: -1440, price: 5 },
        Quote { timestamp: 4 * 1440 - 1, price: 6 },
    ];
    let (days, buckets) = sort_into_days(&quotes);
    assert_eq!(days, vec![3, -1, 0]);
    let prices: Vec<Vec<i32>> =
        buckets.iter().map(|b| b.iter().map(|q| q.price).collect()).collect();
    assert_eq!(prices, vec![vec![1, 3, 6], vec![2, 5], vec![4]]);
    assert_eq!(group_by_day(&quotes), days);
    let (no_days, no_buckets) = sort_into_days(&Vec::new());
    assert!(no_days.is_empty() && no_buckets.is_empty());
}
