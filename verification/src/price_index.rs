//! Prices by location and time bucket, with a fallback hub.

use std::collections::HashMap;
use vstd::hash_map::StringHashMap;
use vstd::prelude::*;
use crate::ledger::numbers_names;
use crate::calculator::FIRST_DAY;
use crate::calculator::day_number;
use crate::calculator::day_of;
use crate::models::MarketType;
use crate::models::PriceData;
use crate::numeric::floor_mod;

verus! {

/// Slots run from zero to this, excluded.
pub const SLOT_LIMIT: u64 = 0x1_0000_0000;

/// The number of the bucket within its day: minutes since midnight divided
/// by the length of the market's interval.
pub open spec fn bucket_of(minutes: int, market: MarketType) -> int {
    (minutes % 1440) / market.spec_interval_minutes()
}

/// A number for each market.
pub open spec fn market_number(market: MarketType) -> int {
    match market {
        MarketType::DayAhead => 0,
        MarketType::RealTime5Min => 1,
        MarketType::RealTime15Min => 2,
    }
}

/// One number for day, market and bucket together.
pub open spec fn slot_of(minutes: int, market: MarketType) -> int {
    (day_of(minutes) - FIRST_DAY) * 1024 + market_number(market) * 288 + bucket_of(minutes, market)
}

/// The price that the last record for `location` and `slot` gives.
pub open spec fn last_quote(records: Seq<PriceData>, location: Seq<char>, slot: int) -> Option<
    int,
>
    decreases records.len(),
{
    if records.len() == 0 {
        None
    } else {
        let r = records.last();
        if r.settlement_point@ == location && slot_of(r.timestamp as int, r.market) == slot {
            Some(r.price as int)
        } else {
            last_quote(records.drop_last(), location, slot)
        }
    }
}

/// The price for `location` and `slot`, or failing that the price that the
/// fallback hub has for the same slot.
pub open spec fn quote_with_fallback(
    records: Seq<PriceData>,
    fallback: Option<Seq<char>>,
    location: Seq<char>,
    slot: int,
) -> Option<int> {
    match last_quote(records, location, slot) {
        Some(p) => Some(p),
        None => match fallback {
            Some(hub) => last_quote(records, hub, slot),
            None => None,
        },
    }
}

/// Two times in two markets share a slot exactly when they share day,
/// market and bucket.
pub proof fn lemma_slot_is_faithful(m1: int, k1: MarketType, m2: int, k2: MarketType)
    requires
        i32::MIN <= m1 <= i32::MAX,
        i32::MIN <= m2 <= i32::MAX,
    ensures
        slot_of(m1, k1) == slot_of(m2, k2) <==> day_of(m1) == day_of(m2) && k1 == k2 && bucket_of(
            m1,
            k1,
        ) == bucket_of(m2, k2),
        0 <= slot_of(m1, k1) < SLOT_LIMIT,
{
    lemma_bucket_range(m1, k1);
    lemma_bucket_range(m2, k2);
}

proof fn lemma_bucket_range(minutes: int, market: MarketType)
    requires
        i32::MIN <= minutes <= i32::MAX,
    ensures
        0 <= bucket_of(minutes, market) < 288,
        0 <= market_number(market) * 288 + bucket_of(minutes, market) < 1024,
        0 <= day_of(minutes) - FIRST_DAY <= 2_982_617,
        0 <= slot_of(minutes, market) < SLOT_LIMIT,
{
    let r = minutes % 1440;
    assert(0 <= r < 1440);
    let w = market.spec_interval_minutes();
    assert(0 <= r / w < 288) by {
        if w == 60 {
            assert(0 <= r / 60 < 288);
        } else if w == 5 {
            assert(0 <= r / 5 < 288);
        } else {
            assert(0 <= r / 15 < 288);
        }
    }
}

/// The key under which the table holds location number `at` and `slot`.
pub open spec fn table_key(at: int, slot: int) -> u128 {
    (at * 0x1_0000_0000_0000_0000 + slot) as u128
}

/// Prices by location and time bucket.
pub struct PriceIndex {
    locations: Vec<String>,
    numbers: StringHashMap<usize>,
    table: HashMap<u128, i32>,
    fallback: Option<String>,
}

/// The place of `location` among `locations`.
pub open spec fn place_of(locations: Seq<String>, location: Seq<char>) -> Option<int> {
    if exists|i: int| 0 <= i < locations.len() && (#[trigger] locations[i])@ == location {
        Some(choose|i: int| 0 <= i < locations.len() && (#[trigger] locations[i])@ == location)
    } else {
        None
    }
}

/// No location is listed twice.
pub open spec fn locations_distinct(locations: Seq<String>) -> bool {
    forall|i: int, j: int|
        0 <= i < locations.len() && 0 <= j < locations.len() && i != j ==> (
        #[trigger] locations[i])@ != (#[trigger] locations[j])@
}

/// What a list of locations and a table of prices hold for `location` and
/// `slot`.
pub open spec fn held(
    locations: Seq<String>,
    table: Map<u128, i32>,
    location: Seq<char>,
    slot: int,
) -> Option<int> {
    match place_of(locations, location) {
        Some(at) => if 0 <= slot < SLOT_LIMIT && table.contains_key(table_key(at, slot)) {
            Some(table[table_key(at, slot)] as int)
        } else {
            None
        },
        None => None,
    }
}

/// Place of `name` among `locations`, as the table of numbers gives it.
fn find_location(
    numbers: &StringHashMap<usize>,
    Ghost(locations): Ghost<Seq<String>>,
    name: &String,
) -> (found: Option<usize>)
    requires
        locations_distinct(locations),
        numbers_names(numbers@, locations),
    ensures
        match found {
            Some(i) => i < locations.len() && locations[i as int]@ == name@ && place_of(
                locations,
                name@,
            ) == Some(i as int),
            None => place_of(locations, name@) is None,
        },
{
    match numbers.get(name.as_str()) {
        Some(at) => {
            let i: usize = *at;
            proof {
                assert(locations[i as int]@ == name@);
                let c = choose|c: int|
                    0 <= c < locations.len() && (#[trigger] locations[c])@ == name@;
                assert(locations[c]@ == locations[i as int]@);
                assert(c == i);
            }
            Some(i)
        },
        None => {
            assert forall|m: int| 0 <= m < locations.len() implies (#[trigger] locations[m])@
                != name@ by {
                assert(numbers@.contains_key(locations[m]@));
            }
            None
        },
    }
}

/// The slot of a time in a market.
pub fn slot_number(minutes: i32, market: MarketType) -> (slot: u64)
    ensures
        slot == slot_of(minutes as int, market),
        slot < SLOT_LIMIT,
{
    proof {
        lemma_bucket_range(minutes as int, market);
    }
    let day: i64 = day_number(minutes) as i64;
    let of_day: i64 = floor_mod(minutes as i128, 1440) as i64;
    let bucket: i64 = of_day / market.interval_minutes();
    let number: i64 = match market {
        MarketType::DayAhead => 0,
        MarketType::RealTime5Min => 1,
        MarketType::RealTime15Min => 2,
    };
    ((day - FIRST_DAY as i64) * 1024 + number * 288 + bucket) as u64
}

impl PriceIndex {
    #[verifier::type_invariant]
    spec fn no_location_twice(&self) -> bool {
        locations_distinct(self.locations@) && numbers_names(self.numbers@, self.locations@)
    }

    /// The price held for `location` and `slot`.
    pub closed spec fn quoted(&self, location: Seq<char>, slot: int) -> Option<int> {
        held(self.locations@, self.table@, location, slot)
    }

    /// The hub whose price stands in where a location has none.
    pub closed spec fn fallback(&self) -> Option<Seq<char>> {
        match self.fallback {
            Some(hub) => Some(hub@),
            None => None,
        }
    }

    /// What a lookup gives: the location's own price, else the hub's.
    pub open spec fn answer(&self, location: Seq<char>, slot: int) -> Option<int> {
        match self.quoted(location, slot) {
            Some(p) => Some(p),
            None => match self.fallback() {
                Some(hub) => self.quoted(hub, slot),
                None => None,
            },
        }
    }

    /// The index holds exactly what `records` give, a later record
    /// replacing an earlier one for the same location and slot.
    pub open spec fn indexes(&self, records: Seq<PriceData>) -> bool {
        forall|location: Seq<char>, slot: int| #[trigger]
            self.quoted(location, slot) == last_quote(records, location, slot)
    }

    /// Builds the index of `records`.
    pub fn build(records: &Vec<PriceData>, fallback: Option<String>) -> (index: Self)
        ensures
            index.indexes(records@),
            index.fallback() == match fallback {
                Some(hub) => Some(hub@),
                None => None,
            },
    {
        broadcast use vstd::std_specs::hash::group_hash_axioms;

        let mut locations: Vec<String> = Vec::new();
        let mut numbers: StringHashMap<usize> = StringHashMap::new();
        let mut table: HashMap<u128, i32> = HashMap::new();
        let mut i: usize = 0;
        assert(records@.take(0) =~= Seq::<PriceData>::empty());
        while i < records.len()
            invariant
                i <= records.len(),
                locations_distinct(locations@),
                numbers_names(numbers@, locations@),
                forall|location: Seq<char>, slot: int| #[trigger]
                    held(locations@, table@, location, slot) == last_quote(
                        records@.take(i as int),
                        location,
                        slot,
                    ),
                forall|m: int|
                    0 <= m < i ==> place_of(locations@, (#[trigger] records[m]).settlement_point@)
                        is Some,
                forall|k: u128| #[trigger]
                    table@.contains_key(k) ==> k < locations.len() * 0x1_0000_0000_0000_0000,
            decreases records.len() - i,
        {
            let r: &PriceData = &records[i];
            let ghost seen = records@.take(i as int);
            let ghost next = records@.take(i + 1);
            let ghost old_locations = locations@;
            let ghost old_table = table@;
            let slot: u64 = slot_number(r.timestamp, r.market);
            let found: Option<usize> = find_location(
                &numbers,
                Ghost(locations@),
                &r.settlement_point,
            );
            let ghost old_numbers = numbers@;
            let at: usize = match found {
                Some(at) => at,
                None => {
                    locations.push(r.settlement_point.clone());
                    numbers.insert(r.settlement_point.clone(), locations.len() - 1);
                    locations.len() - 1
                },
            };
            let key: u128 = at as u128 * 0x1_0000_0000_0000_0000 + slot as u128;
            table.insert(key, r.price);
            proof {
                assert(next.drop_last() =~= seen);
                assert(next.last() == records[i as int]);
                assert(key == table_key(at as int, slot as int));
                assert(locations_distinct(locations@)) by {
                    assert forall|a: int, b: int|
                        0 <= a < locations.len() && 0 <= b < locations.len() && a != b implies (
                    #[trigger] locations[a])@ != (#[trigger] locations[b])@ by {
                        if a < old_locations.len() {
                            assert(locations[a] == old_locations[a]);
                        }
                        if b < old_locations.len() {
                            assert(locations[b] == old_locations[b]);
                        }
                    }
                }
                assert(numbers_names(numbers@, locations@)) by {
                    assert forall|name: Seq<char>| #[trigger] numbers@.contains_key(name) implies numbers@[name]
                        < locations.len() && locations[numbers@[name] as int]@ == name by {
                        if old_numbers.contains_key(name) {
                            assert(locations[old_numbers[name] as int] == old_locations[old_numbers[name] as int]);
                        }
                    }
                    assert forall|a: int| 0 <= a < locations.len() implies numbers@.contains_key(
                        (#[trigger] locations[a])@,
                    ) by {
                        if a < old_locations.len() {
                            assert(locations[a] == old_locations[a]);
                            assert(old_numbers.contains_key(old_locations[a]@));
                        }
                    }
                }
                assert(locations[at as int]@ == r.settlement_point@);
                assert forall|location: Seq<char>| #[trigger]
                    place_of(locations@, location) == (if location == r.settlement_point@ {
                        Some(at as int)
                    } else {
                        place_of(old_locations, location)
                    }) by {
                    if location == r.settlement_point@ {
                        assert(locations[at as int]@ == location);
                    } else {
                        if exists|a: int|
                            0 <= a < locations.len() && (#[trigger] locations[a])@ == location {
                            let a = choose|a: int|
                                0 <= a < locations.len() && (#[trigger] locations[a])@ == location;
                            assert(a < old_locations.len());
                            assert(old_locations[a]@ == location);
                            let b = choose|b: int|
                                0 <= b < old_locations.len() && (#[trigger] old_locations[b])@
                                    == location;
                            assert(locations[b] == old_locations[b]);
                        } else {
                            if exists|b: int|
                                0 <= b < old_locations.len() && (#[trigger] old_locations[b])@
                                    == location {
                                let b = choose|b: int|
                                    0 <= b < old_locations.len() && (#[trigger] old_locations[b])@
                                        == location;
                                assert(locations[b]@ == location);
                            }
                        }
                    }
                }
                assert(table@ == old_table.insert(key, r.price));
                assert forall|k: u128| #[trigger] table@.contains_key(k) implies k < locations.len()
                    * 0x1_0000_0000_0000_0000 by {
                    if k != key {
                        assert(old_table.contains_key(k));
                    }
                }
                assert forall|location: Seq<char>, s: int| #[trigger]
                    held(locations@, table@, location, s) == last_quote(next, location, s) by {
                    assert(held(old_locations, old_table, location, s) == last_quote(
                        seen,
                        location,
                        s,
                    ));
                    assert(place_of(locations@, location) == (if location == r.settlement_point@ {
                        Some(at as int)
                    } else {
                        place_of(old_locations, location)
                    }));
                    if location == r.settlement_point@ {
                        if s == slot {
                            assert(table@.contains_key(key));
                        } else if 0 <= s < SLOT_LIMIT {
                            let other = table_key(at as int, s);
                            assert(other != key);
                            assert(table@.contains_key(other) == old_table.contains_key(other));
                            if found is None {
                                assert(place_of(old_locations, location) is None);
                                assert(at == old_locations.len());
                                assert(other >= old_locations.len() * 0x1_0000_0000_0000_0000);
                                assert(!old_table.contains_key(other));
                            } else {
                                assert(place_of(old_locations, location) == Some(at as int));
                            }
                        }
                    } else {
                        let p = place_of(old_locations, location);
                        if p is Some && 0 <= s < SLOT_LIMIT {
                            let a = p->0;
                            assert(0 <= a < old_locations.len());
                            assert(old_locations[a]@ == location);
                            assert(locations[a] == old_locations[a]);
                            assert(a != at);
                            let other = table_key(a, s);
                            assert(other != key);
                            assert(table@.contains_key(other) == old_table.contains_key(other));
                        }
                    }
                }
                assert forall|m: int| 0 <= m < i + 1 implies place_of(
                    locations@,
                    (#[trigger] records[m]).settlement_point@,
                ) is Some by {
                    if m < i {
                        assert(place_of(old_locations, records[m].settlement_point@) is Some);
                    }
                }
            }
            i = i + 1;
        }
        assert(records@.take(records.len() as int) =~= records@);
        PriceIndex { locations, numbers, table, fallback }
    }

    /// The price held for exactly this location and slot.
    fn exact(&self, location: &String, slot: u64) -> (price: Option<i32>)
        requires
            slot < SLOT_LIMIT,
        ensures
            match price {
                Some(p) => self.quoted(location@, slot as int) == Some(p as int),
                None => self.quoted(location@, slot as int) is None,
            },
    {
        broadcast use vstd::std_specs::hash::group_hash_axioms;

        proof {
            use_type_invariant(self);
        }
        match find_location(&self.numbers, Ghost(self.locations@), location) {
            Some(at) => {
                let key: u128 = at as u128 * 0x1_0000_0000_0000_0000 + slot as u128;
                assert(key == table_key(at as int, slot as int));
                match self.table.get(&key) {
                    Some(p) => Some(*p),
                    None => None,
                }
            },
            None => None,
        }
    }

    /// The price at a location and time: that of the location's own bucket,
    /// else that of the fallback hub's bucket, else none. A missing price is
    /// no price; it is not zero.
    pub fn lookup(&self, location_id: &str, timestamp: i32, market: MarketType) -> (price: Option<
        i32,
    >)
        ensures
            match price {
                Some(p) => self.answer(location_id@, slot_of(timestamp as int, market)) == Some(
                    p as int,
                ),
                None => self.answer(location_id@, slot_of(timestamp as int, market)) is None,
            },
    {
        let slot: u64 = slot_number(timestamp, market);
        let name: String = location_id.to_owned();
        match self.exact(&name, slot) {
            Some(p) => Some(p),
            None => match &self.fallback {
                Some(hub) => self.exact(hub, slot),
                None => None,
            },
        }
    }
}

/// A lookup in the index of `records` is the last price recorded for the
/// location's bucket, else the last recorded for the hub's.
pub proof fn lemma_lookup_meaning(
    index: PriceIndex,
    records: Seq<PriceData>,
    location: Seq<char>,
    slot: int,
)
    requires
        index.indexes(records),
    ensures
        index.answer(location, slot) == quote_with_fallback(
            records,
            index.fallback(),
            location,
            slot,
        ),
{
    assert(index.quoted(location, slot) == last_quote(records, location, slot));
    if index.fallback() is Some {
        let hub = index.fallback()->0;
        assert(index.quoted(hub, slot) == last_quote(records, hub, slot));
    }
}

} // verus!
