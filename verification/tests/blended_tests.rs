use bess_economics::blended_optimizer::apply_action;
use bess_economics::blended_optimizer::calculate_daily_stats;
use bess_economics::blended_optimizer::create_arbitrage_windows;
use bess_economics::blended_optimizer::create_intervals;
use bess_economics::blended_optimizer::decide_action;
use bess_economics::blended_optimizer::hour_of;
use bess_economics::blended_optimizer::optimize_dispatch;
use bess_economics::blended_optimizer::sort_intervals;
use bess_economics::blended_optimizer::BlendedOptimizer;
use bess_economics::blended_optimizer::DailyStats;
use bess_economics::blended_optimizer::DispatchStep;
use bess_economics::blended_optimizer::Interval;
use bess_economics::models::MarketType;
use bess_economics::models::PriceData;
use bess_economics::models::TbxConfig;

fn da(hour: i32, price: i32) -> PriceData {
    PriceData {
        timestamp: hour * 60,
        settlement_point: "N".to_string(),
        price,
        market: MarketType::DayAhead,
    }
}

fn rt(minute: i32, price: i32) -> PriceData {
    PriceData {
        timestamp: minute,
        settlement_point: "N".to_string(),
        price,
        market: MarketType::RealTime15Min,
    }
}

fn interval(start: i32, price: i32, market: MarketType, available_kw: i64) -> Interval {
    let minutes: i64 = market.interval_minutes();
    Interval { start, end: start as i64 + minutes, price, market, available_kw }
}

#[test]
fn hour_of_rounds_down() {
    assert_eq!(hour_of(0), 0);
    assert_eq!(hour_of(59), 0);
    assert_eq!(hour_of(60), 60);
    assert_eq!(hour_of(-1), -60);
    assert_eq!(hour_of(i32::MIN), -2_147_483_700);
}

#[test]
fn spikes_take_a_quarter_of_the_hour_each() {
    let config = TbxConfig::new_tb2(100_000);
    let day_ahead = vec![da(0, 30_000), da(1, 30_000)];
    let real_time = vec![
        rt(0, 40_000),  // premium exactly 10: no spike
        rt(15, 40_001), // spike in hour 0
        rt(30, 90_000), // spike in hour 0
        rt(75, 20_000), // below day-ahead
        rt(130, 60_000), // hour 2 has no day-ahead price: reference 50, premium 10, no spike
        rt(145, 60_001), // spike against the default reference
    ];
    let out = create_intervals(&day_ahead, &real_time, &config);
    assert_eq!(out.len(), 5);
    assert_eq!(out[0], interval(0, 30_000, MarketType::DayAhead, 50_000));
    assert_eq!(out[1], interval(60, 30_000, MarketType::DayAhead, 100_000));
    assert_eq!(out[2], interval(15, 40_001, MarketType::RealTime15Min, 100_000));
    assert_eq!(out[3], interval(30, 90_000, MarketType::RealTime15Min, 100_000));
    assert_eq!(out[4], interval(145, 60_001, MarketType::RealTime15Min, 100_000));
    let sorted = sort_intervals(&out);
    let starts: Vec<i32> = sorted.iter().map(|i| i.start).collect();
    assert_eq!(starts, vec![0, 15, 30, 60, 145]);
}

#[test]
fn only_the_first_record_of_an_hour_is_reduced_and_may_go_negative() {
    let config = TbxConfig::new_tb1(10);
    let day_ahead = vec![da(0, 1_000), da(0, 2_000)];
    let mut real_time: Vec<PriceData> = Vec::new();
    for i in 0..12 {
        real_time.push(rt(i * 5, 50_000));
    }
    let out = create_intervals(&day_ahead, &real_time, &config);
    assert_eq!(out.len(), 14);
    // a quarter of 10 kW is 2 kW in whole numbers; twelve spikes take 24
    assert_eq!(out[0].available_kw, 10 - 24);
    assert_eq!(out[1].available_kw, 10);
}

#[test]
fn sort_keeps_day_ahead_before_real_time_at_equal_start() {
    let a = interval(60, 1, MarketType::DayAhead, 5);
    let b = interval(0, 2, MarketType::RealTime15Min, 5);
    let c = interval(60, 3, MarketType::RealTime15Min, 5);
    let d = interval(0, 4, MarketType::DayAhead, 5);
    let sorted = sort_intervals(&vec![a, b, c, d]);
    assert_eq!(sorted, vec![b, d, a, c]);
}

#[test]
fn daily_stats_read_percentiles_off_the_sorted_prices() {
    let mut intervals: Vec<Interval> = Vec::new();
    // day 0: prices 100, 90, ..., 10 (ten intervals)
    for i in 0..10 {
        intervals.push(interval(i * 60, 100 - 10 * i, MarketType::DayAhead, 1));
    }
    // day 1: a single interval
    intervals.push(interval(1440, 7, MarketType::DayAhead, 1));
    let stats = calculate_daily_stats(&intervals);
    assert_eq!(stats.len(), 2);
    assert_eq!(
        stats[0],
        DailyStats { day: 0, count: 10, total: 550, p10_price: 20, p90_price: 100 }
    );
    assert_eq!(stats[1], DailyStats { day: 1, count: 1, total: 7, p10_price: 7, p90_price: 7 });
}

#[test]
fn decide_action_follows_the_three_rules_in_order() {
    let config = TbxConfig::new_tb2(100); // capacity 200
    let stats = DailyStats { day: 0, count: 4, total: 200, p10_price: 20, p90_price: 80 };
    let high = interval(0, 81, MarketType::DayAhead, 100);
    let low = interval(0, 19, MarketType::DayAhead, 100);
    let mid = interval(0, 76, MarketType::DayAhead, 100);
    let spike = interval(0, 76, MarketType::RealTime15Min, 100);
    // discharge needs more than a fifth: 5 * 41 > 200, 5 * 40 is not
    assert_eq!(decide_action(&high, 41, &stats, &config), 100);
    assert_eq!(decide_action(&high, 40, &stats, &config), 0);
    // charge needs less than four fifths: 5 * 159 < 800, 5 * 160 is not
    assert_eq!(decide_action(&low, 159, &stats, &config), -100);
    assert_eq!(decide_action(&low, 160, &stats, &config), 0);
    // the mean is 50; a real-time price above 75 discharges above a tenth
    assert_eq!(decide_action(&mid, 100, &stats, &config), 0);
    assert_eq!(decide_action(&spike, 21, &stats, &config), 100);
    assert_eq!(decide_action(&spike, 20, &stats, &config), 0);
    let at_mean = interval(0, 75, MarketType::RealTime15Min, 100);
    assert_eq!(decide_action(&at_mean, 100, &stats, &config), 0);
    // what the interval has left caps the action, and a negative rest flips it
    let part = interval(0, 81, MarketType::DayAhead, 30);
    assert_eq!(decide_action(&part, 100, &stats, &config), 30);
    let gone = interval(0, 19, MarketType::DayAhead, -50);
    assert_eq!(decide_action(&gone, 100, &stats, &config), 50);
}

#[test]
fn apply_action_uses_one_way_efficiency_and_clamps() {
    let mut config = TbxConfig::new_tb2(100); // capacity 200
    config.round_trip_efficiency_ppm = 810_000; // one way 0.9
    assert_eq!(config.one_way_efficiency(), 900_000);
    // discharging 90 kW for an hour draws 100 kWh
    assert_eq!(apply_action(150, 90, MarketType::DayAhead, &config), 50);
    // charging 100 kW for an hour stores 90 kWh
    assert_eq!(apply_action(50, -100, MarketType::DayAhead, &config), 140);
    // a quarter hour moves a quarter of the energy: 20 kWh delivered draws
    // 22.2, taken as 22
    assert_eq!(apply_action(100, 80, MarketType::RealTime15Min, &config), 100 - 22);
    // clamped at both ends
    assert_eq!(apply_action(10, 90, MarketType::DayAhead, &config), 0);
    assert_eq!(apply_action(190, -100, MarketType::DayAhead, &config), 200);
    // holding changes nothing
    assert_eq!(apply_action(77, 0, MarketType::DayAhead, &config), 77);
    // without any efficiency a discharge empties the battery
    config.round_trip_efficiency_ppm = 0;
    assert_eq!(apply_action(150, 1, MarketType::DayAhead, &config), 0);
    assert_eq!(apply_action(150, -100, MarketType::DayAhead, &config), 150);
}

#[test]
fn state_of_charge_stays_within_the_battery() {
    // 100 kW for one hour: capacity 100 kWh, starting at 50
    let config = TbxConfig::new_tb1(100);
    let mut intervals: Vec<Interval> = Vec::new();
    let mut prices: Vec<i32> = vec![1];
    for _ in 0..18 {
        prices.push(50);
    }
    prices.push(99);
    for (h, p) in prices.iter().enumerate() {
        intervals.push(interval((h as i32) * 60, *p, MarketType::DayAhead, 100));
    }
    let plan = optimize_dispatch(&intervals, &config);
    assert_eq!(plan.len(), 2);
    for step in &plan {
        assert!(step.soc_kwh <= config.battery_capacity_kwh);
        assert!(step.action_kw != 0);
    }
    // charging would store 92 kWh on top of 50: held at the capacity
    assert_eq!(plan[0].soc_kwh, 100);
    // discharging 100 kWh draws 108: held at zero
    assert_eq!(plan[1].soc_kwh, 0);
}

#[test]
fn nothing_beyond_the_percentiles_means_holding() {
    let mut config = TbxConfig::new_tb1(100);
    config.round_trip_efficiency_ppm = 250_000;
    let mut intervals: Vec<Interval> = Vec::new();
    let prices = [5, 5, 5, 5, 50, 50, 50, 50, 50, 50, 50, 50, 50, 50, 50, 50, 50, 50, 50, 50, 95,
        95, 95, 95];
    for (h, p) in prices.iter().enumerate() {
        intervals.push(interval((h as i32) * 60, *p, MarketType::DayAhead, 100));
    }
    // p10 is the price at place 2 and p90 the one at place 21 of the sorted
    // prices, 5 and 95, so nothing is strictly beyond them
    assert!(optimize_dispatch(&intervals, &config).is_empty());
}

#[test]
fn dispatch_charges_low_and_discharges_high() {
    let config = TbxConfig::new_tb4(100); // capacity 400, starts at 200
    let mut intervals: Vec<Interval> = Vec::new();
    let mut prices: Vec<i32> = vec![1];
    for _ in 0..18 {
        prices.push(50);
    }
    prices.push(99);
    // twenty prices: p10 is place 2 (50), p90 is place 18 (50)
    for (h, p) in prices.iter().enumerate() {
        intervals.push(interval((h as i32) * 60, *p, MarketType::DayAhead, 100));
    }
    let plan = optimize_dispatch(&intervals, &config);
    assert_eq!(plan.len(), 2);
    assert_eq!(plan[0].action_kw, -100);
    // 100 kWh bought, 92 stored (one way 0.921954)
    assert_eq!(plan[0].soc_kwh, 200 + 92);
    assert_eq!(plan[1].action_kw, 100);
    // 100 kWh delivered draws 108.46..., rounded down to 108
    assert_eq!(plan[1].soc_kwh, 292 - 108);
    let windows = create_arbitrage_windows(&plan, &config);
    assert_eq!(windows.len(), 1);
    let w = windows[0];
    assert_eq!(w.charge_start, 0);
    assert_eq!(w.charge_end, 60);
    assert_eq!(w.discharge_start, 19 * 60);
    assert_eq!(w.discharge_end, 20 * 60);
    assert_eq!(w.charge_price, 1);
    assert_eq!(w.discharge_price, 99);
    assert_eq!(w.energy_kwh, 100);
    assert_eq!(w.revenue, 100 * 98 * 850_000 / 1_000_000);
}

fn step(start: i32, price: i32, market: MarketType, action_kw: i64) -> DispatchStep {
    DispatchStep { interval: interval(start, price, market, 100), action_kw, soc_kwh: 0 }
}

#[test]
fn legs_accumulate_until_both_are_open() {
    let config = TbxConfig::new_tb4(100);
    let plan = vec![
        step(0, 10, MarketType::DayAhead, -100),
        step(60, 30, MarketType::DayAhead, -50),
        step(120, 90, MarketType::RealTime15Min, 80),
        step(135, 70, MarketType::DayAhead, 100),
        step(195, 60, MarketType::DayAhead, 100),
        step(255, 20, MarketType::DayAhead, -40),
        step(315, 5, MarketType::DayAhead, -40),
    ];
    let windows = create_arbitrage_windows(&plan, &config);
    assert_eq!(windows.len(), 2);
    let first = windows[0];
    assert_eq!((first.charge_start, first.charge_end), (0, 120));
    assert_eq!((first.discharge_start, first.discharge_end), (120, 135));
    // charge mean weighted by energy: (10*100 + 30*50) / 150 = 16.67, floor 16
    assert_eq!(first.charge_price, 16);
    assert_eq!(first.discharge_price, 90);
    // the lesser energy is the quarter hour at 80 kW: 20 kWh
    assert_eq!(first.energy_kwh, 20);
    assert_eq!(first.revenue, 20 * (90 - 16) * 850_000 / 1_000_000);
    let second = windows[1];
    assert_eq!((second.discharge_start, second.discharge_end), (135, 255));
    assert_eq!((second.charge_start, second.charge_end), (255, 315));
    assert_eq!(second.discharge_price, 65);
    assert_eq!(second.charge_price, 20);
    assert_eq!(second.energy_kwh, 40);
    // the last charge opens a leg that nothing closes
}

#[test]
fn negative_spread_gives_negative_revenue_rounded_down() {
    let config = TbxConfig::new_tb1(100);
    let plan = vec![
        step(0, 50, MarketType::DayAhead, -3),
        step(60, 49, MarketType::DayAhead, 3),
    ];
    let windows = create_arbitrage_windows(&plan, &config);
    assert_eq!(windows.len(), 1);
    assert_eq!(windows[0].energy_kwh, 3);
    // 3 * -1 * 0.85 = -2.55, rounded toward negative infinity
    assert_eq!(windows[0].revenue, -3);
}

#[test]
fn blended_run_pairs_spike_discharge_with_cheap_charge() {
    let config = TbxConfig::new_tb2(100);
    let optimizer = BlendedOptimizer::new(config);
    let mut day_ahead: Vec<PriceData> = Vec::new();
    let mut prices: Vec<i32> = vec![1_000];
    for _ in 0..22 {
        prices.push(30_000);
    }
    prices.push(31_000);
    for (h, p) in prices.iter().enumerate() {
        day_ahead.push(da(h as i32, *p));
    }
    let real_time = vec![rt(12 * 60 + 15, 200_000)];
    let windows = optimizer.optimize_blended(&day_ahead, &real_time);
    assert_eq!(windows.len(), 1);
    let w = windows[0];
    assert_eq!(w.charge_price, 1_000);
    assert_eq!(w.discharge_price, 200_000);
    assert_eq!(w.discharge_start, 12 * 60 + 15);
    assert_eq!(w.discharge_end, 12 * 60 + 30);
    assert_eq!(w.energy_kwh, 25);
    assert_eq!(w.revenue, 25 * 199_000 * 850_000 / 1_000_000);
    assert!(w.energy_kwh <= config.battery_capacity_kwh);
    assert_eq!(windows, optimizer.optimize_blended(&day_ahead, &real_time));
}

#[test]
fn blended_run_of_nothing_is_empty() {
    let optimizer = BlendedOptimizer::new(TbxConfig::new_tb1(0));
    assert!(optimizer.optimize_blended(&Vec::new(), &Vec::new()).is_empty());
    let only_rt = vec![rt(0, 100_000)];
    // a lone spike is the whole day: nothing is above its own percentile
    assert!(optimizer.optimize_blended(&Vec::new(), &only_rt).is_empty());
}

#[test]
fn twelve_spikes_in_one_hour_can_move_more_than_the_battery_holds() {
    // 100 kW for one hour, one percent round trip: one way is ten percent
    let mut config = TbxConfig::new_tb1(100);
    config.round_trip_efficiency_ppm = 10_000;
    let optimizer = BlendedOptimizer::new(config);
    let mut day_ahead: Vec<PriceData> = vec![da(0, 1_000), da(1, 1_000), da(2, 1_000)];
    for h in 3..24 {
        day_ahead.push(da(h, 20_000));
    }
    // twelve five-minute prices in hour 2, each more than ten dollars above it
    let mut real_time: Vec<PriceData> = Vec::new();
    for i in 0..12 {
        real_time.push(rt(120 + 5 * i, 12_000));
    }
    let intervals = create_intervals(&day_ahead, &real_time, &config);
    assert_eq!(intervals[2].available_kw, 100 - 12 * 25);
    let windows = optimizer.optimize_blended(&day_ahead, &real_time);
    assert_eq!(windows.len(), 1);
    // two hours of charging at 100 kW, then the hour that has -200 kW left
    // turns its charge into a discharge at 200 kW
    assert_eq!(windows[0].energy_kwh, 200);
    assert!(windows[0].energy_kwh > config.battery_capacity_kwh);
    assert_eq!(windows[0].revenue, 0);
}

#[test]
fn four_spikes_an_hour_keep_every_window_within_the_battery() {
    let mut config = TbxConfig::new_tb1(100);
    config.round_trip_efficiency_ppm = 10_000;
    let optimizer = BlendedOptimizer::new(config);
    let mut day_ahead: Vec<PriceData> = vec![da(0, 1_000), da(1, 1_000), da(2, 1_000)];
    for h in 3..24 {
        day_ahead.push(da(h, 20_000));
    }
    let mut real_time: Vec<PriceData> = Vec::new();
    for i in 0..4 {
        real_time.push(rt(120 + 15 * i, 12_000));
    }
    let intervals = create_intervals(&day_ahead, &real_time, &config);
    assert_eq!(intervals[2].available_kw, 0);
    let windows = optimizer.optimize_blended(&day_ahead, &real_time);
    for w in &windows {
        assert!(w.energy_kwh >= 1);
        assert!(w.energy_kwh <= config.battery_capacity_kwh);
    }
}

#[test]
fn below_four_kilowatts_a_quarter_hour_moves_no_whole_kilowatt_hour() {
    let config = TbxConfig::new_tb1(3);
    let plan = vec![
        step(0, 10, MarketType::DayAhead, -3),
        step(60, 90, MarketType::RealTime15Min, 3),
    ];
    let windows = create_arbitrage_windows(&plan, &config);
    assert_eq!(windows.len(), 1);
    assert_eq!(windows[0].energy_kwh, 0);
    assert_eq!(windows[0].revenue, 0);
    let four = vec![
        step(0, 10, MarketType::DayAhead, -4),
        step(60, 90, MarketType::RealTime15Min, 4),
    ];
    let moved = create_arbitrage_windows(&four, &TbxConfig::new_tb1(4));
    assert_eq!(moved[0].energy_kwh, 1);
}

#[test]
fn a_run_of_any_size_is_answered() {
    let optimizer = BlendedOptimizer::new(TbxConfig::new_tb1(100));
    let day_ahead = vec![da(0, 1_000), da(1, 90_000)];
    let some = optimizer.try_optimize_blended(&day_ahead, &Vec::new());
    assert_eq!(some, Some(optimizer.optimize_blended(&day_ahead, &Vec::new())));
}

#[test]
fn many_days_find_their_statistics() {
    let config = TbxConfig::new_tb4(100);
    let mut intervals: Vec<Interval> = Vec::new();
    // three days in mixed order, each with its own price level
    for (day, base) in [(2, 1_000), (0, 10), (1, 100)] {
        for h in 0..10 {
            intervals.push(interval(day * 1440 + h * 60, base + h, MarketType::DayAhead, 100));
        }
    }
    let stats = calculate_daily_stats(&intervals);
    let days: Vec<i32> = stats.iter().map(|s| s.day).collect();
    assert_eq!(days, vec![2, 0, 1]);
    assert_eq!(stats[1].p10_price, 11);
    assert_eq!(stats[2].p90_price, 109);
    let plan = optimize_dispatch(&intervals, &config);
    // on each day only the cheapest hour is below the day's tenth
    // percentile; after two charges the battery is more than four fifths
    // full, so the third day's cheapest hour is left alone
    for step in &plan {
        assert!(step.soc_kwh <= config.battery_capacity_kwh);
    }
    let charged: Vec<i32> = plan.iter().filter(|s| s.action_kw < 0).map(|s| s.interval.price).collect();
    assert_eq!(charged, vec![1_000, 10]);
    assert_eq!(plan.len(), 2);
    assert_eq!(plan[1].soc_kwh, 200 + 92 + 92);
}
