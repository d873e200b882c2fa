use bess_economics::models::MarketType;
use bess_economics::models::PriceData;
use bess_economics::price_index::slot_number;
use bess_economics::price_index::PriceIndex;

fn point(location: &str, timestamp: i32, price: i32, market: MarketType) -> PriceData {
    PriceData { timestamp, settlement_point: location.to_string(), price, market }
}

#[test]
fn lookup_finds_the_bucket_of_the_time() {
    let records = vec![
        point("A", 0, 10, MarketType::RealTime15Min),
        point("A", 15, 20, MarketType::RealTime15Min),
        point("A", 0, 30, MarketType::DayAhead),
        point("B", 15, 40, MarketType::RealTime15Min),
    ];
    let index = PriceIndex::build(&records, None);
    assert_eq!(index.lookup("A", 0, MarketType::RealTime15Min), Some(10));
    assert_eq!(index.lookup("A", 14, MarketType::RealTime15Min), Some(10));
    assert_eq!(index.lookup("A", 15, MarketType::RealTime15Min), Some(20));
    assert_eq!(index.lookup("A", 29, MarketType::RealTime15Min), Some(20));
    assert_eq!(index.lookup("A", 30, MarketType::RealTime15Min), None);
    assert_eq!(index.lookup("A", 59, MarketType::DayAhead), Some(30));
    assert_eq!(index.lookup("A", 60, MarketType::DayAhead), None);
    assert_eq!(index.lookup("A", 0, MarketType::RealTime5Min), None);
    assert_eq!(index.lookup("B", 20, MarketType::RealTime15Min), Some(40));
    assert_eq!(index.lookup("B", 0, MarketType::RealTime15Min), None);
    assert_eq!(index.lookup("C", 0, MarketType::RealTime15Min), None);
}

#[test]
fn a_later_record_replaces_an_earlier_one() {
    let records = vec![
        point("A", 3, 10, MarketType::RealTime5Min),
        point("A", 4, 11, MarketType::RealTime5Min),
        point("A", 5, 12, MarketType::RealTime5Min),
    ];
    let index = PriceIndex::build(&records, None);
    assert_eq!(index.lookup("A", 0, MarketType::RealTime5Min), Some(11));
    assert_eq!(index.lookup("A", 9, MarketType::RealTime5Min), Some(12));
}

#[test]
fn a_miss_falls_back_to_the_hub_once() {
    let records = vec![
        point("HB_HOUSTON", 0, 77, MarketType::RealTime15Min),
        point("A", 15, 20, MarketType::RealTime15Min),
    ];
    let index = PriceIndex::build(&records, Some("HB_HOUSTON".to_string()));
    assert_eq!(index.lookup("A", 15, MarketType::RealTime15Min), Some(20));
    assert_eq!(index.lookup("A", 0, MarketType::RealTime15Min), Some(77));
    assert_eq!(index.lookup("UNKNOWN", 7, MarketType::RealTime15Min), Some(77));
    // the hub has no price for this bucket either
    assert_eq!(index.lookup("UNKNOWN", 15, MarketType::RealTime15Min), None);
    let without = PriceIndex::build(&records, None);
    assert_eq!(without.lookup("A", 0, MarketType::RealTime15Min), None);
    let missing_hub = PriceIndex::build(&records, Some("HB_NORTH".to_string()));
    assert_eq!(missing_hub.lookup("A", 0, MarketType::RealTime15Min), None);
}

#[test]
fn a_zero_price_is_a_price() {
    let records = vec![point("A", 0, 0, MarketType::DayAhead)];
    let index = PriceIndex::build(&records, None);
    assert_eq!(index.lookup("A", 0, MarketType::DayAhead), Some(0));
    assert_eq!(index.lookup("A", 60, MarketType::DayAhead), None);
}

#[test]
fn buckets_before_the_epoch_and_at_the_ends() {
    let records = vec![
        point("A", -1, 5, MarketType::RealTime15Min),
        point("A", i32::MIN, 6, MarketType::DayAhead),
        point("A", i32::MAX, 7, MarketType::RealTime5Min),
    ];
    let index = PriceIndex::build(&records, None);
    assert_eq!(index.lookup("A", -15, MarketType::RealTime15Min), Some(5));
    assert_eq!(index.lookup("A", -16, MarketType::RealTime15Min), None);
    assert_eq!(index.lookup("A", i32::MIN, MarketType::DayAhead), Some(6));
    assert_eq!(index.lookup("A", i32::MAX - 2, MarketType::RealTime5Min), Some(7));
}

#[test]
fn slots_tell_day_market_and_bucket_apart() {
    let a = slot_number(0, MarketType::DayAhead);
    assert_eq!(slot_number(59, MarketType::DayAhead), a);
    assert_ne!(slot_number(60, MarketType::DayAhead), a);
    assert_ne!(slot_number(0, MarketType::RealTime15Min), a);
    assert_ne!(slot_number(0, MarketType::RealTime5Min), a);
    assert_ne!(slot_number(1440, MarketType::DayAhead), a);
    assert_eq!(slot_number(1439, MarketType::RealTime5Min) - slot_number(0, MarketType::RealTime5Min), 287);
    // the first minute there is falls at 21:52 of the first day
    assert_eq!(slot_number(i32::MIN, MarketType::DayAhead), 21);
}

#[test]
fn empty_index_has_no_price() {
    let index = PriceIndex::build(&Vec::new(), Some("HUB".to_string()));
    assert_eq!(index.lookup("HUB", 0, MarketType::DayAhead), None);
}
