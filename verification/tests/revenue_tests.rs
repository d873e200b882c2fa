use bess_economics::anomalies::IssueKind;
use bess_economics::calendar::month_of;
use bess_economics::calendar::YearMonth;
use bess_economics::ledger::RevenueStreams;
use bess_economics::models::MarketType;
use bess_economics::models::PriceData;
use bess_economics::price_index::PriceIndex;
use bess_economics::revenue::aggregate_to_monthly;
use bess_economics::revenue::daily_within;
use bess_economics::revenue::monthly_within;
use bess_economics::revenue::try_aggregate_to_monthly;
use bess_economics::revenue::combined_rrs_award;
use bess_economics::revenue::index_overrides;
use bess_economics::revenue::index_resources;
use bess_economics::revenue::look_up_override;
use bess_economics::revenue::look_up_resource;
use bess_economics::revenue::rollup_months;
use bess_economics::revenue::AwardRecord;
use bess_economics::revenue::BessResource;
use bess_economics::revenue::BessRevenueCalculator;
use bess_economics::revenue::DailyRevenue;
use bess_economics::revenue::DispatchInterval;
use bess_economics::revenue::RevenueStream;
use bess_economics::revenue::SettlementOverride;
use chrono::NaiveDate;

fn day(y: i32, m: u32, d: u32) -> i32 {
    NaiveDate::from_ymd_opt(y, m, d).unwrap().to_epoch_days()
}

fn resource(name: &str, point: &str, capacity_kw: u32) -> BessResource {
    BessResource {
        name: name.to_string(),
        settlement_point: point.to_string(),
        capacity_kw,
        duration_hours: None,
    }
}

fn award(name: &str, date: i32, kw: i32, price: i32, stream: RevenueStream) -> AwardRecord {
    AwardRecord {
        resource_id: name.to_string(),
        date,
        hour: 1,
        award_kw: kw,
        clearing_price: price,
        stream,
    }
}

fn dispatch(name: &str, timestamp: i32, kw: i32) -> DispatchInterval {
    DispatchInterval { resource_id: name.to_string(), timestamp, signed_kw: kw }
}

fn rt_price(point: &str, timestamp: i32, price: i32) -> PriceData {
    PriceData {
        timestamp,
        settlement_point: point.to_string(),
        price,
        market: MarketType::RealTime15Min,
    }
}

fn calculator(prices: Vec<PriceData>, hub: Option<&str>) -> BessRevenueCalculator {
    let index = PriceIndex::build(&prices, hub.map(|h| h.to_string()));
    BessRevenueCalculator::new(
        vec![resource("ALPHA", "ALPHA_RN", 100_000), resource("BETA", "BETA_RN", 10_000)],
        vec![],
        index,
        MarketType::RealTime15Min,
    )
}

fn daily(name: &str, date: i32, streams: RevenueStreams) -> DailyRevenue {
    DailyRevenue { resource_name: name.to_string(), date, streams, records: 1 }
}

fn energy(rt: i128) -> RevenueStreams {
    let mut s = RevenueStreams::zero();
    s.rt_energy_revenue = rt;
    s
}

#[test]
fn two_day_ahead_awards_net_to_a_thousand_dollars() {
    let calc = calculator(vec![], None);
    let d = day(2024, 3, 5);
    let awards = vec![
        award("ALPHA", d, -50_000, 20_000, RevenueStream::DamEnergy),
        award("ALPHA", d, 50_000, 40_000, RevenueStream::DamEnergy),
    ];
    let report = calc.calculate_all_revenues(&awards, &vec![]);
    assert_eq!(report.daily.len(), 1);
    let r = &report.daily[0];
    assert_eq!(r.resource_name, "ALPHA");
    assert_eq!(r.date, d);
    assert_eq!(r.records, 2);
    assert_eq!(r.streams.dam_charge_cost, -1_000_000_000);
    assert_eq!(r.streams.dam_discharge_revenue, 2_000_000_000);
    assert_eq!(r.streams.dam_energy_revenue(), 1_000_000_000);
    assert_eq!(r.total_revenue(), 1_000_000_000);
}

#[test]
fn dispatch_without_any_price_is_left_out() {
    // nothing is indexed for ALPHA_RN and there is no hub
    let calc = calculator(vec![rt_price("ELSEWHERE", 0, 50_000)], None);
    let intervals = vec![dispatch("ALPHA", 0, 80_000), dispatch("ALPHA", 15, -80_000)];
    assert_eq!(calc.price_for(&intervals[0]), None);
    assert!(calc.calculate_rt_energy_revenues(&intervals).is_empty());
    let report = calc.calculate_all_revenues(&vec![], &intervals);
    assert!(report.daily.is_empty());
    assert!(report.monthly.is_empty());
    assert!(report.annual.is_empty());
}

#[test]
fn unpriced_interval_adds_nothing_beside_priced_ones() {
    let prices = vec![rt_price("ALPHA_RN", 0, 40_000)];
    let calc = calculator(prices, None);
    let priced = vec![dispatch("ALPHA", 0, 100_000)];
    let both = vec![dispatch("ALPHA", 0, 100_000), dispatch("ALPHA", 15, 100_000)];
    let a = calc.calculate_all_revenues(&vec![], &priced);
    let b = calc.calculate_all_revenues(&vec![], &both);
    assert_eq!(a.daily.len(), 1);
    assert_eq!(b.daily.len(), 1);
    assert_eq!(a.daily[0].streams, b.daily[0].streams);
    assert_eq!(b.daily[0].records, 1);
    assert_eq!(b.daily[0].streams.rt_energy_revenue, 100_000 * 40_000 / 4);
}

#[test]
fn zero_price_is_recorded_as_a_trade() {
    let calc = calculator(vec![rt_price("ALPHA_RN", 0, 0)], None);
    let report = calc.calculate_all_revenues(&vec![], &vec![dispatch("ALPHA", 0, 100_000)]);
    assert_eq!(report.daily.len(), 1);
    assert_eq!(report.daily[0].streams.rt_energy_revenue, 0);
    assert_eq!(report.daily[0].records, 1);
}

#[test]
fn real_time_revenue_is_power_times_price_over_four() {
    let prices = vec![
        rt_price("ALPHA_RN", 0, 40_000),
        rt_price("ALPHA_RN", 15, 20_001),
        rt_price("HUB", 30, 10_000),
    ];
    let calc = calculator(prices, Some("HUB"));
    let intervals = vec![
        dispatch("ALPHA", 0, 100_000),
        dispatch("ALPHA", 16, -3),     // charging: -3 * 20001 / 4 = -15000.75, taken as -15001
        dispatch("ALPHA", 31, 8_000),  // own price missing: hub price
        dispatch("ALPHA", 45, 8_000),  // no price anywhere: skipped
        dispatch("ALPHA", 0, 0),       // no power: skipped
        dispatch("GHOST", 0, 5_000),   // unknown resource: skipped
    ];
    let entries = calc.calculate_rt_energy_revenues(&intervals);
    assert_eq!(entries.len(), 3);
    assert_eq!(entries[0].streams.rt_energy_revenue, 1_000_000_000);
    assert_eq!(entries[1].streams.rt_energy_revenue, -15_001);
    assert_eq!(entries[2].streams.rt_energy_revenue, 20_000_000);
    let report = calc.calculate_all_revenues(&vec![], &intervals);
    assert_eq!(report.daily.len(), 1);
    assert_eq!(report.daily[0].records, 3);
    assert_eq!(report.daily[0].streams.rt_energy_revenue, 1_000_000_000 - 15_001 + 20_000_000);
}

#[test]
fn five_minute_dispatch_divides_by_twelve() {
    let prices = vec![PriceData {
        timestamp: 5,
        settlement_point: "ALPHA_RN".to_string(),
        price: 60_000,
        market: MarketType::RealTime5Min,
    }];
    let index = PriceIndex::build(&prices, None);
    let calc = BessRevenueCalculator::new(
        vec![resource("ALPHA", "ALPHA_RN", 1)],
        vec![],
        index,
        MarketType::RealTime5Min,
    );
    let entries = calc.calculate_rt_energy_revenues(&vec![dispatch("ALPHA", 9, 1_200)]);
    assert_eq!(entries.len(), 1);
    assert_eq!(entries[0].streams.rt_energy_revenue, 1_200 * 60_000 / 12);
    assert!(calc.calculate_rt_energy_revenues(&vec![dispatch("ALPHA", 10, 1_200)]).is_empty());
}

#[test]
fn override_takes_precedence_over_the_resource_list() {
    let prices = vec![rt_price("ALPHA_RN", 0, 10_000), rt_price("ALPHA_NEW", 0, 30_000)];
    let index = PriceIndex::build(&prices, None);
    let calc = BessRevenueCalculator::new(
        vec![resource("ALPHA", "ALPHA_RN", 1), resource("BETA", "ALPHA_RN", 1)],
        vec![
            SettlementOverride {
                resource_name: "ALPHA".to_string(),
                settlement_point: "NOWHERE".to_string(),
            },
            SettlementOverride {
                resource_name: "ALPHA".to_string(),
                settlement_point: "ALPHA_NEW".to_string(),
            },
            SettlementOverride {
                resource_name: "GHOST".to_string(),
                settlement_point: "ALPHA_NEW".to_string(),
            },
        ],
        index,
        MarketType::RealTime15Min,
    );
    assert_eq!(calc.price_for(&dispatch("ALPHA", 0, 4)), Some(30_000));
    assert_eq!(calc.price_for(&dispatch("BETA", 0, 4)), Some(10_000));
    // an override does not make a resource known
    assert_eq!(calc.price_for(&dispatch("GHOST", 0, 4)), None);
}

#[test]
fn services_count_only_with_award_and_price_above_zero() {
    let calc = calculator(vec![], None);
    let d = day(2024, 1, 1);
    let awards = vec![
        award("ALPHA", d, 10, 3, RevenueStream::RegUp),
        award("ALPHA", d, 10, 0, RevenueStream::RegUp),
        award("ALPHA", d, 0, 3, RevenueStream::RegUp),
        award("ALPHA", d, -10, 3, RevenueStream::RegUp),
        award("ALPHA", d, 10, -3, RevenueStream::RegUp),
        award("ALPHA", d, 2, 5, RevenueStream::RegDown),
        award("ALPHA", d, 3, 5, RevenueStream::Rrs),
        award("ALPHA", d, 4, 5, RevenueStream::Ecrs),
        award("ALPHA", d, 6, 5, RevenueStream::NonSpin),
        award("ALPHA", d, 7, -5, RevenueStream::DamEnergy),
        award("GHOST", d, 10, 3, RevenueStream::RegUp),
    ];
    let report = calc.calculate_all_revenues(&awards, &vec![]);
    assert_eq!(report.daily.len(), 1);
    let s = report.daily[0].streams;
    assert_eq!(s.reg_up_revenue, 30);
    assert_eq!(s.reg_down_revenue, 10);
    assert_eq!(s.rrs_revenue, 15);
    assert_eq!(s.ecrs_revenue, 20);
    assert_eq!(s.non_spin_revenue, 30);
    // a positive energy award at a negative price is negative revenue
    assert_eq!(s.dam_discharge_revenue, -35);
    assert_eq!(s.dam_charge_cost, 0);
    assert_eq!(s.ancillary_revenue(), 105);
    assert_eq!(s.energy_revenue(), -35);
    assert_eq!(s.total_revenue(), 70);
    assert_eq!(report.daily[0].records, 10);
}

#[test]
fn an_award_of_nothing_still_opens_the_day() {
    let calc = calculator(vec![], None);
    let d = day(2024, 1, 1);
    let report = calc.calculate_all_revenues(&vec![award("ALPHA", d, 0, 0, RevenueStream::RegUp)], &vec![]);
    assert_eq!(report.daily.len(), 1);
    assert_eq!(report.daily[0].streams, RevenueStreams::zero());
}

#[test]
fn responsive_reserve_is_summed_before_pricing() {
    assert_eq!(combined_rrs_award(&vec![10, 20, 30]), Some(60));
    assert_eq!(combined_rrs_award(&vec![]), Some(0));
    assert_eq!(combined_rrs_award(&vec![i32::MAX, 1]), None);
    assert_eq!(combined_rrs_award(&vec![i32::MAX, 1, -1]), Some(i32::MAX));
    assert_eq!(combined_rrs_award(&vec![i32::MIN, -1]), None);
}

#[test]
fn daily_rollup_is_ordered_by_name_then_date() {
    let calc = calculator(vec![rt_price("BETA_RN", 0, 4_000)], None);
    let awards = vec![
        award("BETA", 11, 1, 1, RevenueStream::RegUp),
        award("ALPHA", 12, 1, 2, RevenueStream::RegUp),
        award("BETA", 10, 1, 3, RevenueStream::RegUp),
        award("ALPHA", -3, 1, 4, RevenueStream::RegUp),
        award("BETA", 11, 1, 5, RevenueStream::RegUp),
    ];
    let intervals = vec![dispatch("BETA", 7, 1_000)];
    let report = calc.calculate_all_revenues(&awards, &intervals);
    let keys: Vec<(&str, i32)> =
        report.daily.iter().map(|d| (d.resource_name.as_str(), d.date)).collect();
    assert_eq!(keys, vec![("ALPHA", -3), ("ALPHA", 12), ("BETA", 0), ("BETA", 10), ("BETA", 11)]);
    assert_eq!(report.daily[4].streams.reg_up_revenue, 6);
    assert_eq!(report.daily[4].records, 2);
    assert_eq!(report.daily[2].streams.rt_energy_revenue, 1_000_000);
}

#[test]
fn names_sort_by_character_codes() {
    let index = PriceIndex::build(&vec![], None);
    let names = ["b", "B", "", "ab", "a", "Zeta", "a\u{e9}", "aa", "a b"];
    let resources: Vec<BessResource> = names.iter().map(|n| resource(n, "P", 1)).collect();
    let calc = BessRevenueCalculator::new(resources, vec![], index, MarketType::RealTime15Min);
    let awards: Vec<AwardRecord> =
        names.iter().map(|n| award(n, 0, 1, 1, RevenueStream::RegUp)).collect();
    let report = calc.calculate_all_revenues(&awards, &vec![]);
    let got: Vec<&str> = report.daily.iter().map(|d| d.resource_name.as_str()).collect();
    assert_eq!(got, vec!["", "B", "Zeta", "a", "a b", "aa", "ab", "a\u{e9}", "b"]);
}

#[test]
fn months_come_from_the_calendar() {
    assert_eq!(month_of(0), Some(YearMonth { year: 1970, month: 1 }));
    assert_eq!(month_of(30), Some(YearMonth { year: 1970, month: 1 }));
    assert_eq!(month_of(31), Some(YearMonth { year: 1970, month: 2 }));
    assert_eq!(month_of(-1), Some(YearMonth { year: 1969, month: 12 }));
    assert_eq!(month_of(day(2024, 2, 29)), Some(YearMonth { year: 2024, month: 2 }));
    assert_eq!(month_of(day(2024, 3, 1)), Some(YearMonth { year: 2024, month: 3 }));
    assert_eq!(month_of(i32::MAX), None);
    assert_eq!(month_of(i32::MIN), None);
}

#[test]
fn annual_equals_monthly_equals_daily() {
    let calc = calculator(vec![], None);
    let mut days: Vec<DailyRevenue> = Vec::new();
    let mut expect_2023: i128 = 0;
    let mut expect_2024: i128 = 0;
    let mut amount: i128 = 1;
    for (y, m, d) in
        [(2023, 12, 30), (2023, 12, 31), (2024, 1, 1), (2024, 1, 31), (2024, 2, 1), (2024, 12, 31)]
    {
        let mut s = RevenueStreams::zero();
        s.rt_energy_revenue = amount * 1_000;
        s.dam_charge_cost = -amount;
        s.reg_up_revenue = 7 * amount;
        days.push(daily("ALPHA", day(y, m, d), s));
        if y == 2023 {
            expect_2023 += s.total_revenue();
        } else {
            expect_2024 += s.total_revenue();
        }
        amount *= 3;
    }
    days.push(daily("BETA", day(2024, 1, 1), energy(5)));
    let monthly = aggregate_to_monthly(&days);
    let keys: Vec<(&str, i32, u32, u64)> = monthly
        .iter()
        .map(|m| (m.resource_name.as_str(), m.year, m.month, m.days_active))
        .collect();
    assert_eq!(
        keys,
        vec![
            ("ALPHA", 2023, 12, 2),
            ("ALPHA", 2024, 1, 2),
            ("ALPHA", 2024, 2, 1),
            ("ALPHA", 2024, 12, 1),
            ("BETA", 2024, 1, 1)
        ]
    );
    let annual = calc.aggregate_to_annual(&monthly);
    let years: Vec<(&str, i32, u64)> =
        annual.iter().map(|a| (a.resource_name.as_str(), a.year, a.months_active)).collect();
    assert_eq!(years, vec![("ALPHA", 2023, 1), ("ALPHA", 2024, 3), ("BETA", 2024, 1)]);
    assert_eq!(annual[0].total_revenue(), expect_2023);
    assert_eq!(annual[1].total_revenue(), expect_2024);
    let monthly_2024: i128 = monthly
        .iter()
        .filter(|m| m.resource_name == "ALPHA" && m.year == 2024)
        .map(|m| m.total_revenue())
        .sum();
    assert_eq!(monthly_2024, expect_2024);
    assert_eq!(annual[2].total_revenue(), 5);
    assert_eq!(annual[1].streams.reg_up_revenue, 7 * (9 + 27 + 81 + 243));
}

#[test]
fn annual_figures_per_kw_and_per_kwh() {
    let index = PriceIndex::build(&vec![], None);
    let mut listed = resource("ALPHA", "P", 100);
    listed.duration_hours = Some(4);
    let calc = BessRevenueCalculator::new(
        vec![listed, resource("BETA", "P", 10), resource("ZERO", "P", 0)],
        vec![],
        index,
        MarketType::RealTime15Min,
    );
    let days = vec![
        daily("ALPHA", day(2024, 5, 1), energy(1_000)),
        daily("BETA", day(2024, 5, 1), energy(-1_001)),
        daily("GHOST", day(2024, 5, 1), energy(77)),
        daily("ZERO", day(2024, 5, 1), energy(77)),
    ];
    let annual = calc.aggregate_to_annual(&aggregate_to_monthly(&days));
    assert_eq!(annual.len(), 4);
    assert_eq!(annual[0].capacity_kw, Some(100));
    assert_eq!(annual[0].duration_hours, 4);
    assert_eq!(annual[0].revenue_per_kw(), Some(10));
    assert_eq!(annual[0].revenue_per_kwh(), Some(2));
    // duration unknown: two hours are assumed
    assert_eq!(annual[1].duration_hours, 2);
    assert_eq!(annual[1].revenue_per_kw(), Some(-101));
    assert_eq!(annual[1].revenue_per_kwh(), Some(-51));
    assert_eq!(annual[2].capacity_kw, None);
    assert_eq!(annual[2].revenue_per_kw(), None);
    assert_eq!(annual[2].revenue_per_kwh(), None);
    assert_eq!(annual[3].capacity_kw, Some(0));
    assert_eq!(annual[3].revenue_per_kw(), None);
}

#[test]
fn days_without_a_month_are_left_out_of_the_months() {
    let days = vec![daily("ALPHA", 0, energy(5)), daily("ALPHA", 1, energy(6))];
    let months = vec![None, Some(YearMonth { year: 2000, month: 7 })];
    let monthly = rollup_months(&days, &months);
    assert_eq!(monthly.len(), 1);
    assert_eq!((monthly[0].year, monthly[0].month), (2000, 7));
    assert_eq!(monthly[0].streams.rt_energy_revenue, 6);
    let negative = vec![
        Some(YearMonth { year: -1, month: 12 }),
        Some(YearMonth { year: -1, month: 1 }),
    ];
    let old = rollup_months(&days, &negative);
    let keys: Vec<(i32, u32)> = old.iter().map(|m| (m.year, m.month)).collect();
    assert_eq!(keys, vec![(-1, 1), (-1, 12)]);
}

#[test]
fn swing_beyond_twice_a_day_at_100_dollars_is_flagged() {
    let calc = calculator(vec![], None);
    // BETA has 10 MW: 2 * 10000 kW * 24 h * 100000 = 48e9
    let limit: i128 = 48_000_000_000;
    let days = vec![
        daily("BETA", 1, energy(0)),
        daily("BETA", 2, energy(limit)),
        daily("BETA", 3, energy(-1)),
        daily("BETA", 5, energy(limit)),
    ];
    let issues = calc.detect_operational_issues(&days);
    assert_eq!(issues.len(), 2);
    assert_eq!((issues[0].resource_id.as_str(), issues[0].date, issues[0].kind),
        ("BETA", 3, IssueKind::SocViolation));
    assert_eq!((issues[1].date, issues[1].kind), (5, IssueKind::SocViolation));
    // an unknown resource has no capacity to judge by
    let ghost = vec![daily("GHOST", 1, energy(0)), daily("GHOST", 2, energy(limit * 10))];
    assert!(calc.detect_operational_issues(&ghost).is_empty());
}

#[test]
fn lapse_of_services_with_halved_revenue_is_flagged() {
    let calc = calculator(vec![], None);
    let mut with_services = energy(100);
    with_services.non_spin_revenue = 100;
    let days = vec![
        daily("ALPHA", 1, with_services),
        daily("BETA", 1, with_services),
        daily("ALPHA", 2, energy(99)),  // 99 < 100: flagged
        daily("BETA", 2, energy(100)),  // exactly half: not flagged
        daily("ALPHA", 3, energy(1)),   // the day before had no services
    ];
    let issues = calc.detect_operational_issues(&days);
    assert_eq!(issues.len(), 1);
    assert_eq!((issues[0].resource_id.as_str(), issues[0].date, issues[0].kind),
        ("ALPHA", 2, IssueKind::AsFailure));
}

#[test]
fn leaderboard_ranks_listed_resources_by_revenue_per_kw() {
    let calc = calculator(vec![], None);
    // ALPHA: 100 MW, BETA: 10 MW, GHOST: not listed
    let days = vec![
        daily("ALPHA", 1, energy(1_000_000)),
        daily("GHOST", 1, energy(9_000_000)),
        daily("BETA", 1, energy(200_000)),
        daily("ALPHA", 2, energy(3_000_000)),
        daily("BETA", 2, energy(-100_001)),
        daily("BETA", 3, energy(200_000)),
    ];
    let board = calc.generate_performance_metrics(&days);
    let names: Vec<&str> = board.iter().map(|r| r.resource_name.as_str()).collect();
    assert_eq!(names, vec!["ALPHA", "BETA"]);
    assert_eq!(board[0].days, 2);
    assert_eq!(board[0].total, 4_000_000);
    assert_eq!(board[0].total_annual, 4_000_000 * 365 / 2);
    assert_eq!(board[0].revenue_per_kw, 4_000_000 * 365 / 2 / 100_000);
    assert_eq!(board[1].days, 3);
    assert_eq!(board[1].total, 299_999);
    assert_eq!(board[1].total_annual, 36_499_878);
    assert_eq!(board[1].revenue_per_kw, 3_649);
    let breakdown = calc.generate_detailed_revenue_breakdown(&days);
    let order: Vec<&str> = breakdown.iter().map(|r| r.resource_name.as_str()).collect();
    assert_eq!(order, vec!["GHOST", "ALPHA", "BETA"]);
    assert_eq!(breakdown[0].capacity_kw, None);
    assert_eq!(breakdown[0].revenue_per_kw, 0);
    assert_eq!(breakdown[0].annual.rt_energy_revenue, 9_000_000 * 365);
    assert_eq!(breakdown[2].annual.rt_energy_revenue, 36_499_878);
    assert_eq!(breakdown[2].energy_annual, 36_499_878);
    assert_eq!(breakdown[2].ancillary_annual, 0);
}

#[test]
fn breakdown_scales_each_stream_and_rounds_down() {
    let calc = calculator(vec![], None);
    let mut s = RevenueStreams::zero();
    s.dam_charge_cost = -10;
    s.dam_discharge_revenue = 25;
    s.reg_up_revenue = 1;
    s.ecrs_revenue = 2;
    let days = vec![daily("ALPHA", 1, s), daily("ALPHA", 2, s), daily("ALPHA", 4, s)];
    let rows = calc.generate_detailed_revenue_breakdown(&days);
    assert_eq!(rows.len(), 1);
    let r = &rows[0];
    assert_eq!(r.days, 3);
    assert_eq!(r.annual.dam_charge_cost, -3_650);
    assert_eq!(r.annual.dam_discharge_revenue, 9_125);
    assert_eq!(r.annual.reg_up_revenue, 365);
    assert_eq!(r.annual.ecrs_revenue, 730);
    assert_eq!(r.energy_annual, 5_475);
    assert_eq!(r.ancillary_annual, 1_095);
    assert_eq!(r.total, 54);
    assert_eq!(r.total_annual, 6_570);
    assert_eq!(r.revenue_per_kw, 0);
    let odd = vec![daily("ALPHA", 1, energy(-1)), daily("ALPHA", 2, energy(0))];
    let row = &calc.generate_detailed_revenue_breakdown(&odd)[0];
    // -365 / 2 rounds toward negative infinity
    assert_eq!(row.total_annual, -183);
}

#[test]
fn report_of_nothing_is_empty() {
    let calc = calculator(vec![], Some("HUB"));
    let report = calc.calculate_all_revenues(&vec![], &vec![]);
    assert!(report.daily.is_empty());
    assert!(report.issues.is_empty());
    assert!(report.monthly.is_empty());
    assert!(report.annual.is_empty());
    assert!(report.leaderboard.is_empty());
    assert!(report.breakdown.is_empty());
}

#[test]
fn records_too_large_to_sum_are_told_apart() {
    let calc = calculator(vec![], None);
    let half = i128::MAX / 2;
    let fits = vec![
        daily("ALPHA", day(2024, 1, 1), energy(half)),
        daily("ALPHA", day(2024, 1, 2), energy(-half)),
        daily("ALPHA", day(2024, 2, 1), energy(1)),
    ];
    assert!(daily_within(&fits, i128::MAX as u128));
    assert!(!daily_within(&fits, (i128::MAX - 1) as u128));
    assert!(daily_within(&Vec::new(), 0));
    let monthly = try_aggregate_to_monthly(&fits).unwrap();
    assert_eq!(monthly.len(), 2);
    assert_eq!(monthly[0].streams.rt_energy_revenue, 0);
    assert_eq!(monthly[0].days_active, 2);
    assert!(monthly_within(&monthly, 1));
    assert!(!monthly_within(&monthly, 0));
    let annual = calc.try_aggregate_to_annual(&monthly).unwrap();
    assert_eq!(annual.len(), 1);
    assert_eq!(annual[0].total_revenue(), 1);
    let too_much = vec![
        daily("ALPHA", day(2024, 1, 1), energy(half + 1)),
        daily("BETA", day(2024, 1, 2), energy(-half - 1)),
    ];
    assert!(!daily_within(&too_much, i128::MAX as u128));
    assert!(try_aggregate_to_monthly(&too_much).is_none());
    let least = vec![daily("ALPHA", 0, energy(i128::MIN))];
    assert!(try_aggregate_to_monthly(&least).is_none());
}

#[test]
fn a_report_of_any_size_is_answered() {
    let calc = calculator(vec![], None);
    let d = day(2024, 3, 5);
    let awards = vec![award("ALPHA", d, 5, 7, RevenueStream::NonSpin)];
    let report = calc.try_calculate_all_revenues(&awards, &vec![]).unwrap();
    assert_eq!(report.daily.len(), 1);
    assert_eq!(report.daily[0].streams.non_spin_revenue, 35);
}

#[test]
fn many_resources_and_days_are_grouped_by_number() {
    let index = PriceIndex::build(&vec![], None);
    let names: Vec<String> = (0..40).map(|i| format!("R{:02}", (i * 7) % 40)).collect();
    let resources: Vec<BessResource> = names.iter().map(|n| resource(n, "P", 1)).collect();
    let calc = BessRevenueCalculator::new(resources, vec![], index, MarketType::RealTime15Min);
    let mut awards: Vec<AwardRecord> = Vec::new();
    for round in 0..3 {
        for (i, name) in names.iter().enumerate() {
            for d in [5, -5, 0] {
                awards.push(award(name, d, 1 + round, 1 + i as i32, RevenueStream::RegUp));
            }
        }
    }
    let report = calc.calculate_all_revenues(&awards, &vec![]);
    assert_eq!(report.daily.len(), 120);
    for (k, r) in report.daily.iter().enumerate() {
        assert_eq!(r.resource_name, format!("R{:02}", k / 3));
        assert_eq!(r.date, [-5, 0, 5][k % 3]);
        assert_eq!(r.records, 3);
        let at = names.iter().position(|n| *n == r.resource_name).unwrap() as i128;
        assert_eq!(r.streams.reg_up_revenue, 6 * (1 + at));
    }
}

#[test]
fn the_last_resource_of_a_name_is_the_one_found() {
    let resources = vec![
        resource("A", "N1", 1_000),
        resource("B", "N2", 2_000),
        resource("A", "N3", 3_000),
    ];
    let table = index_resources(&resources);
    assert_eq!(look_up_resource(&table, &resources, &"A".to_string()), Some(2));
    assert_eq!(look_up_resource(&table, &resources, &"B".to_string()), Some(1));
    assert_eq!(look_up_resource(&table, &resources, &"C".to_string()), None);
    assert_eq!(look_up_resource(&table, &resources, &"".to_string()), None);
}

#[test]
fn the_last_override_of_a_name_is_the_one_found() {
    let overrides = vec![
        SettlementOverride { resource_name: "A".to_string(), settlement_point: "X".to_string() },
        SettlementOverride { resource_name: "A".to_string(), settlement_point: "Y".to_string() },
        SettlementOverride { resource_name: "B".to_string(), settlement_point: "Z".to_string() },
    ];
    let table = index_overrides(&overrides);
    assert_eq!(look_up_override(&table, &overrides, &"A".to_string()), Some(1));
    assert_eq!(look_up_override(&table, &overrides, &"B".to_string()), Some(2));
    assert_eq!(look_up_override(&table, &overrides, &"a".to_string()), None);
    let none: Vec<SettlementOverride> = Vec::new();
    let empty = index_overrides(&none);
    assert_eq!(look_up_override(&empty, &none, &"A".to_string()), None);
}
