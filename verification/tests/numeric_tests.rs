use bess_economics::models::MarketType;
use bess_economics::models::TbxConfig;
use bess_economics::numeric::floor_div;
use bess_economics::numeric::floor_mod;
use bess_economics::numeric::isqrt;
use bess_economics::stable_sort::sort_positions;

#[test]
fn floor_div_rounds_toward_negative_infinity() {
    assert_eq!(floor_div(7, 2), 3);
    assert_eq!(floor_div(-7, 2), -4);
    assert_eq!(floor_div(-8, 2), -4);
    assert_eq!(floor_div(-1, 1_000_000), -1);
    assert_eq!(floor_div(0, 5), 0);
    assert_eq!(floor_div(i128::MIN, 1), i128::MIN);
    assert_eq!(floor_div(i128::MIN, 2), i128::MIN / 2);
    assert_eq!(floor_div(i128::MAX, i128::MAX), 1);
}

#[test]
fn floor_mod_is_never_negative() {
    assert_eq!(floor_mod(7, 60), 7);
    assert_eq!(floor_mod(-1, 60), 59);
    assert_eq!(floor_mod(-60, 60), 0);
    assert_eq!(floor_mod(-61, 60), 59);
    assert_eq!(floor_mod(i128::MIN, 1440), i128::MIN.rem_euclid(1440));
}

#[test]
fn isqrt_is_the_floor_of_the_root() {
    assert_eq!(isqrt(0), 0);
    assert_eq!(isqrt(1), 1);
    assert_eq!(isqrt(3), 1);
    assert_eq!(isqrt(4), 2);
    assert_eq!(isqrt(99), 9);
    assert_eq!(isqrt(100), 10);
    assert_eq!(isqrt(u64::MAX), u32::MAX);
    assert_eq!(isqrt(850_000_000_000), 921_954);
}

#[test]
fn one_way_efficiency_is_root_of_round_trip() {
    let c = TbxConfig::new_tb2(1);
    assert_eq!(c.round_trip_efficiency_ppm, 850_000);
    assert_eq!(c.one_way_efficiency(), 921_954);
    let mut full = c;
    full.round_trip_efficiency_ppm = 1_000_000;
    assert_eq!(full.one_way_efficiency(), 1_000_000);
    full.round_trip_efficiency_ppm = 0;
    assert_eq!(full.one_way_efficiency(), 0);
}

#[test]
fn profiles_have_capacity_power_times_duration() {
    let one = TbxConfig::new_tb1(100_000);
    let two = TbxConfig::new_tb2(100_000);
    let four = TbxConfig::new_tb4(100_000);
    assert_eq!((one.duration_hours, one.battery_capacity_kwh), (1, 100_000));
    assert_eq!((two.duration_hours, two.battery_capacity_kwh), (2, 200_000));
    assert_eq!((four.duration_hours, four.battery_capacity_kwh), (4, 400_000));
    assert_eq!(four.min_spread_threshold, 5_000);
    let big = TbxConfig::new_tb4(u32::MAX);
    assert_eq!(big.battery_capacity_kwh, 4 * (u32::MAX as u64));
}

#[test]
fn markets_know_their_intervals() {
    assert_eq!(MarketType::DayAhead.intervals_per_hour(), 1);
    assert_eq!(MarketType::RealTime5Min.intervals_per_hour(), 12);
    assert_eq!(MarketType::RealTime15Min.intervals_per_hour(), 4);
    assert_eq!(MarketType::DayAhead.interval_minutes(), 60);
    assert_eq!(MarketType::RealTime5Min.interval_minutes(), 5);
    assert_eq!(MarketType::RealTime15Min.interval_minutes(), 15);
    assert!(!MarketType::DayAhead.is_real_time());
    assert!(MarketType::RealTime5Min.is_real_time());
}

#[test]
fn sort_positions_is_stable() {
    let keys: Vec<i128> = vec![5, 1, 5, -3, 1, 5];
    assert_eq!(sort_positions(&keys), vec![3, 1, 4, 0, 2, 5]);
    assert_eq!(sort_positions(&Vec::new()), Vec::<usize>::new());
    let same: Vec<i128> = vec![7, 7, 7];
    assert_eq!(sort_positions(&same), vec![0, 1, 2]);
}
