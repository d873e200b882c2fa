//! Reconciliation of awards and dispatch into revenue by resource and day.

use vstd::hash_map::StringHashMap;
use vstd::prelude::*;
use crate::anomalies::OperationalIssue;
use crate::anomalies::detect_issues;
use crate::anomalies::issues_upto;
use crate::calculator::day_number;
use crate::calculator::day_of;
use crate::calendar::YearMonth;
use crate::calendar::civil_month;
use crate::calendar::month_of;
use crate::ledger::Entry;
use crate::ledger::RevenueStreams;
use crate::ledger::StreamTotals;
use crate::ledger::abs;
use crate::ledger::group_entries;
use crate::ledger::groups;
use crate::ledger::ledger_count;
use crate::ledger::ledger_magnitude;
use crate::ledger::lemma_abs;
use crate::ledger::lemma_group_holds_key_total;
use crate::ledger::lemma_rearranged_groups;
use crate::ledger::lemma_sorted_keys_distinct;
use crate::ledger::lemma_sum_by_bounded;
use crate::ledger::lemma_sum_by_pairwise;
use crate::ledger::lemma_sum_by_push;
use crate::ledger::lemma_sum_by_take;
use crate::ledger::magnitude_term;
use crate::ledger::only;
use crate::ledger::plain_count_term;
use crate::ledger::sort_entries;
use crate::ledger::sorted_by_key;
use crate::ledger::stream_term;
use crate::ledger::streams_of;
use crate::ledger::sum_by;
use crate::ledger::summable;
use crate::ledger::totals_where;
use crate::metrics::MAX_SCALABLE;
use crate::metrics::RevenueBreakdown;
use crate::metrics::is_breakdown;
use crate::metrics::is_leaderboard;
use crate::metrics::leaderboard;
use crate::metrics::revenue_breakdown;
use crate::models::MarketType;
use crate::numeric::floor_div;
use crate::numeric::floor_mod;
use crate::numeric::lemma_mean_in_range;
use crate::price_index::PriceIndex;
use crate::price_index::slot_of;

verus! {

/// What an award was made for.
#[derive(Debug, Clone, Copy, PartialEq, Eq, Structural)]
pub enum RevenueStream {
    DamEnergy,
    RegUp,
    RegDown,
    Rrs,
    Ecrs,
    NonSpin,
}

/// One hourly award of the day-ahead market.
#[derive(Debug)]
pub struct AwardRecord {
    pub resource_id: String,
    /// Days since 1970-01-01.
    pub date: i32,
    pub hour: u8,
    /// kW; in the energy stream a negative award charges. For responsive
    /// reserve it is the sum of the sub-products.
    pub award_kw: i32,
    /// Thousandths of a dollar per MWh, or per MW for a service.
    pub clearing_price: i32,
    pub stream: RevenueStream,
}

/// One interval of real-time dispatch.
#[derive(Debug)]
pub struct DispatchInterval {
    pub resource_id: String,
    /// Minutes since 1970-01-01T00:00Z.
    pub timestamp: i32,
    /// kW: negative charges, positive discharges.
    pub signed_kw: i32,
}

/// A battery resource.
#[derive(Debug)]
pub struct BessResource {
    pub name: String,
    pub settlement_point: String,
    pub capacity_kw: u32,
    /// Hours at full power, where known.
    pub duration_hours: Option<u32>,
}

/// A settlement point that takes the place of the one in the resource list.
#[derive(Debug)]
pub struct SettlementOverride {
    pub resource_name: String,
    pub settlement_point: String,
}

/// Largest size of what one record contributes, millionths of a dollar.
pub const MAX_TERM: i128 = 0x4000_0000_0000_0000;

/// `i` is the place of the last resource named `name`.
pub open spec fn is_resource_at(resources: Seq<BessResource>, name: Seq<char>, i: int) -> bool {
    &&& 0 <= i < resources.len()
    &&& resources[i].name@ == name
    &&& forall|m: int| i < m < resources.len() ==> (#[trigger] resources[m]).name@ != name
}

/// Some resource is named `name`.
pub open spec fn known(resources: Seq<BessResource>, name: Seq<char>) -> bool {
    exists|i: int| is_resource_at(resources, name, i)
}

/// The resource named `name`: the last so named.
pub open spec fn resource_named(resources: Seq<BessResource>, name: Seq<char>) -> BessResource {
    resources[choose|i: int| is_resource_at(resources, name, i)]
}

/// `i` is the place of the last override for `name`.
pub open spec fn is_override_at(overrides: Seq<SettlementOverride>, name: Seq<char>, i: int) -> bool {
    &&& 0 <= i < overrides.len()
    &&& overrides[i].resource_name@ == name
    &&& forall|m: int| i < m < overrides.len() ==> (#[trigger] overrides[m]).resource_name@ != name
}

/// The settlement point a resource is priced at: that of its override where
/// it has one, else that of the resource list; none for an unknown resource.
pub open spec fn settlement_point_of(
    resources: Seq<BessResource>,
    overrides: Seq<SettlementOverride>,
    name: Seq<char>,
) -> Option<Seq<char>> {
    if !known(resources, name) {
        None
    } else if exists|i: int| is_override_at(overrides, name, i) {
        Some(overrides[choose|i: int| is_override_at(overrides, name, i)].settlement_point@)
    } else {
        Some(resource_named(resources, name).settlement_point@)
    }
}

/// What an award adds to the streams. A day-ahead energy award is worth its
/// size times its price, a cost when it charges; a service award counts
/// only when size and price are both above zero.
pub open spec fn award_streams(a: AwardRecord) -> StreamTotals {
    let product = a.award_kw * a.clearing_price;
    let earned = if a.award_kw > 0 && a.clearing_price > 0 {
        product
    } else {
        0
    };
    match a.stream {
        RevenueStream::DamEnergy => if a.award_kw < 0 {
            StreamTotals::single(0, product)
        } else {
            StreamTotals::single(1, product)
        },
        RevenueStream::RegUp => StreamTotals::single(3, earned),
        RevenueStream::RegDown => StreamTotals::single(4, earned),
        RevenueStream::Rrs => StreamTotals::single(5, earned),
        RevenueStream::Ecrs => StreamTotals::single(6, earned),
        RevenueStream::NonSpin => StreamTotals::single(7, earned),
    }
}

/// The entry of an award: its resource, its day, what it adds.
pub open spec fn award_entry(a: AwardRecord) -> Entry {
    Entry {
        resource_name: a.resource_id,
        period: a.date as i64,
        streams: streams_of(award_streams(a)),
        count: 1,
    }
}

/// The entries of the awards to known resources, in input order.
pub open spec fn award_entries(awards: Seq<AwardRecord>, resources: Seq<BessResource>) -> Seq<
    Entry,
>
    decreases awards.len(),
{
    if awards.len() == 0 {
        Seq::empty()
    } else {
        let rest = award_entries(awards.drop_last(), resources);
        if known(resources, awards.last().resource_id@) {
            rest.push(award_entry(awards.last()))
        } else {
            rest
        }
    }
}

/// The real-time price that applies to a dispatch interval: none when the
/// interval moves no power, when its resource is unknown, or when neither
/// its settlement point nor the fallback hub has a price for its bucket.
pub open spec fn dispatch_price(
    d: DispatchInterval,
    resources: Seq<BessResource>,
    overrides: Seq<SettlementOverride>,
    index: PriceIndex,
    market: MarketType,
) -> Option<int> {
    if d.signed_kw == 0 {
        None
    } else {
        match settlement_point_of(resources, overrides, d.resource_id@) {
            Some(point) => index.answer(point, slot_of(d.timestamp as int, market)),
            None => None,
        }
    }
}

/// Revenue of a dispatch interval at `price`: power times price over the
/// number of intervals in an hour.
pub open spec fn dispatch_revenue(d: DispatchInterval, price: int, market: MarketType) -> int {
    d.signed_kw * price / market.spec_intervals_per_hour()
}

/// The entry of a priced dispatch interval.
pub open spec fn dispatch_entry(d: DispatchInterval, price: int, market: MarketType) -> Entry {
    Entry {
        resource_name: d.resource_id,
        period: day_of(d.timestamp as int) as i64,
        streams: streams_of(StreamTotals::single(2, dispatch_revenue(d, price, market))),
        count: 1,
    }
}

/// The entries of the dispatch intervals that have a price, in input order.
/// An interval without a price adds no entry.
pub open spec fn dispatch_entries(
    dispatch: Seq<DispatchInterval>,
    resources: Seq<BessResource>,
    overrides: Seq<SettlementOverride>,
    index: PriceIndex,
    market: MarketType,
) -> Seq<Entry>
    decreases dispatch.len(),
{
    if dispatch.len() == 0 {
        Seq::empty()
    } else {
        let rest = dispatch_entries(dispatch.drop_last(), resources, overrides, index, market);
        match dispatch_price(dispatch.last(), resources, overrides, index, market) {
            Some(price) => rest.push(dispatch_entry(dispatch.last(), price, market)),
            None => rest,
        }
    }
}

/// Every entry counts one record and is no larger than one record can be.
pub open spec fn unit_entries(entries: Seq<Entry>) -> bool {
    forall|i: int|
        0 <= i < entries.len() ==> (#[trigger] entries[i]).count == 1
            && entries[i].streams@.magnitude() <= MAX_TERM && i32::MIN <= entries[i].period
            <= i32::MAX
}

/// A dispatch interval for which no price is indexed, neither at its own
/// settlement point nor at the fallback hub, adds nothing: the entries are
/// those of the intervals before it, so that no revenue and no zero is
/// recorded for it.
pub proof fn lemma_unpriced_dispatch_adds_nothing(
    dispatch: Seq<DispatchInterval>,
    d: DispatchInterval,
    resources: Seq<BessResource>,
    overrides: Seq<SettlementOverride>,
    index: PriceIndex,
    market: MarketType,
)
    requires
        dispatch_price(d, resources, overrides, index, market) is None,
    ensures
        dispatch_entries(dispatch.push(d), resources, overrides, index, market)
            == dispatch_entries(dispatch, resources, overrides, index, market),
{
    assert(dispatch.push(d).drop_last() =~= dispatch);
}

/// A dispatch interval of a known resource whose settlement point has no
/// price indexed at all, where no fallback hub is set either, has no price,
/// whatever its time.
pub proof fn lemma_unindexed_point_has_no_price(
    d: DispatchInterval,
    resources: Seq<BessResource>,
    overrides: Seq<SettlementOverride>,
    index: PriceIndex,
    market: MarketType,
)
    requires
        index.fallback() is None,
        settlement_point_of(resources, overrides, d.resource_id@) matches Some(point) && forall|
            slot: int,
        | #[trigger] index.quoted(point, slot) is None,
    ensures
        dispatch_price(d, resources, overrides, index, market) is None,
{
    let point = settlement_point_of(resources, overrides, d.resource_id@)->0;
    assert(index.quoted(point, slot_of(d.timestamp as int, market)) is None);
}

/// Unit entries are summable as long as they fit a vector.
pub proof fn lemma_unit_entries_summable(entries: Seq<Entry>)
    requires
        unit_entries(entries),
    ensures
        entries.len() <= usize::MAX ==> summable(entries),
        ledger_count(entries) == entries.len(),
        ledger_magnitude(entries) <= entries.len() * MAX_TERM,
{
    let f = magnitude_term();
    let g = plain_count_term();
    assert forall|i: int| 0 <= i < entries.len() implies -(MAX_TERM as int) <= f(
        #[trigger] entries[i],
    ) <= MAX_TERM by {
        crate::ledger::lemma_stream_sizes(entries[i].streams@);
    }
    lemma_sum_by_bounded(entries, f, MAX_TERM as int);
    lemma_count_of_units(entries);
    if entries.len() <= usize::MAX {
        assert(entries.len() * MAX_TERM <= 0xffff_ffff_ffff_ffff * 0x4000_0000_0000_0000)
            by (nonlinear_arith)
            requires
                entries.len() <= 0xffff_ffff_ffff_ffff,
                MAX_TERM == 0x4000_0000_0000_0000,
        ;
    }
}

proof fn lemma_count_of_units(entries: Seq<Entry>)
    requires
        forall|i: int| 0 <= i < entries.len() ==> (#[trigger] entries[i]).count == 1,
    ensures
        ledger_count(entries) == entries.len(),
    decreases entries.len(),
{
    if entries.len() > 0 {
        let rest = entries.drop_last();
        assert forall|i: int| 0 <= i < rest.len() implies (#[trigger] rest[i]).count == 1 by {
            assert(rest[i] == entries[i]);
        }
        lemma_count_of_units(rest);
    }
}

/// The table leads from every name of a resource to the place of the last
/// resource so named, and holds no other name.
pub open spec fn places_resources(table: Map<Seq<char>, usize>, resources: Seq<BessResource>) -> bool {
    &&& forall|name: Seq<char>| #[trigger]
        table.contains_key(name) ==> is_resource_at(resources, name, table[name] as int)
    &&& forall|a: int| 0 <= a < resources.len() ==> table.contains_key((#[trigger] resources[a]).name@)
}

/// The table leads from every name that has an override to the place of
/// its last override, and holds no other name.
pub open spec fn places_overrides(table: Map<Seq<char>, usize>, overrides: Seq<SettlementOverride>) -> bool {
    &&& forall|name: Seq<char>| #[trigger]
        table.contains_key(name) ==> is_override_at(overrides, name, table[name] as int)
    &&& forall|a: int|
        0 <= a < overrides.len() ==> table.contains_key((#[trigger] overrides[a]).resource_name@)
}

/// A table from the names of the resources to their places.
pub fn index_resources(resources: &Vec<BessResource>) -> (table: StringHashMap<usize>)
    ensures
        places_resources(table@, resources@),
{
    let mut table: StringHashMap<usize> = StringHashMap::new();
    let mut i: usize = 0;
    assert(resources@.take(0) =~= Seq::<BessResource>::empty());
    while i < resources.len()
        invariant
            i <= resources.len(),
            places_resources(table@, resources@.take(i as int)),
        decreases resources.len() - i,
    {
        let ghost before = resources@.take(i as int);
        let ghost after = resources@.take(i + 1);
        let ghost old_table = table@;
        table.insert(resources[i].name.clone(), i);
        proof {
            let added = resources[i as int].name@;
            assert forall|name: Seq<char>| #[trigger] table@.contains_key(name) implies is_resource_at(
                after,
                name,
                table@[name] as int,
            ) by {
                if name == added {
                    assert(after[i as int] == resources[i as int]);
                } else {
                    assert(old_table.contains_key(name));
                    let at = old_table[name] as int;
                    assert(is_resource_at(before, name, at));
                    assert(after[at] == before[at]);
                    assert forall|m: int| at < m < after.len() implies (#[trigger] after[m]).name@
                        != name by {
                        if m < before.len() {
                            assert(after[m] == before[m]);
                        }
                    }
                }
            }
            assert forall|a: int| 0 <= a < after.len() implies table@.contains_key(
                (#[trigger] after[a]).name@,
            ) by {
                if a < before.len() {
                    assert(after[a] == before[a]);
                    assert(old_table.contains_key(before[a].name@));
                }
            }
        }
        i = i + 1;
    }
    assert(resources@.take(resources.len() as int) =~= resources@);
    table
}

/// A table from the names that have overrides to the places of their
/// overrides.
pub fn index_overrides(overrides: &Vec<SettlementOverride>) -> (table: StringHashMap<usize>)
    ensures
        places_overrides(table@, overrides@),
{
    let mut table: StringHashMap<usize> = StringHashMap::new();
    let mut i: usize = 0;
    assert(overrides@.take(0) =~= Seq::<SettlementOverride>::empty());
    while i < overrides.len()
        invariant
            i <= overrides.len(),
            places_overrides(table@, overrides@.take(i as int)),
        decreases overrides.len() - i,
    {
        let ghost before = overrides@.take(i as int);
        let ghost after = overrides@.take(i + 1);
        let ghost old_table = table@;
        table.insert(overrides[i].resource_name.clone(), i);
        proof {
            let added = overrides[i as int].resource_name@;
            assert forall|name: Seq<char>| #[trigger] table@.contains_key(name) implies is_override_at(
                after,
                name,
                table@[name] as int,
            ) by {
                if name == added {
                    assert(after[i as int] == overrides[i as int]);
                } else {
                    assert(old_table.contains_key(name));
                    let at = old_table[name] as int;
                    assert(is_override_at(before, name, at));
                    assert(after[at] == before[at]);
                    assert forall|m: int| at < m < after.len() implies (
                    #[trigger] after[m]).resource_name@ != name by {
                        if m < before.len() {
                            assert(after[m] == before[m]);
                        }
                    }
                }
            }
            assert forall|a: int| 0 <= a < after.len() implies table@.contains_key(
                (#[trigger] after[a]).resource_name@,
            ) by {
                if a < before.len() {
                    assert(after[a] == before[a]);
                    assert(old_table.contains_key(before[a].resource_name@));
                }
            }
        }
        i = i + 1;
    }
    assert(overrides@.take(overrides.len() as int) =~= overrides@);
    table
}

/// Place of the last resource named `name`, as the table gives it.
pub fn look_up_resource(
    table: &StringHashMap<usize>,
    resources: &Vec<BessResource>,
    name: &String,
) -> (found: Option<usize>)
    requires
        places_resources(table@, resources@),
    ensures
        match found {
            Some(i) => is_resource_at(resources@, name@, i as int) && known(resources@, name@)
                && resource_named(resources@, name@) == resources[i as int],
            None => !known(resources@, name@),
        },
{
    match table.get(name.as_str()) {
        Some(place) => {
            let i: usize = *place;
            proof {
                assert(is_resource_at(resources@, name@, i as int));
                let c = choose|c: int| is_resource_at(resources@, name@, c);
                if c < i {
                    assert(resources[i as int].name@ != name@);
                }
                if c > i {
                    assert(resources[c].name@ != name@);
                }
            }
            Some(i)
        },
        None => {
            assert forall|c: int| !is_resource_at(resources@, name@, c) by {
                if 0 <= c < resources.len() {
                    assert(table@.contains_key(resources[c].name@));
                }
            }
            None
        },
    }
}

/// Place of the last override for `name`, as the table gives it.
pub fn look_up_override(
    table: &StringHashMap<usize>,
    overrides: &Vec<SettlementOverride>,
    name: &String,
) -> (found: Option<usize>)
    requires
        places_overrides(table@, overrides@),
    ensures
        match found {
            Some(i) => is_override_at(overrides@, name@, i as int) && i == (choose|c: int|
                is_override_at(overrides@, name@, c)),
            None => !exists|c: int| is_override_at(overrides@, name@, c),
        },
{
    match table.get(name.as_str()) {
        Some(place) => {
            let i: usize = *place;
            proof {
                assert(is_override_at(overrides@, name@, i as int));
                let c = choose|c: int| is_override_at(overrides@, name@, c);
                if c < i {
                    assert(overrides[i as int].resource_name@ != name@);
                }
                if c > i {
                    assert(overrides[c].resource_name@ != name@);
                }
            }
            Some(i)
        },
        None => {
            assert forall|c: int| !is_override_at(overrides@, name@, c) by {
                if 0 <= c < overrides.len() {
                    assert(table@.contains_key(overrides[c].resource_name@));
                }
            }
            None
        },
    }
}

/// The sum of the sub-products of responsive reserve, where it fits an
/// award; the sum is what gets priced.
pub fn combined_rrs_award(sub_awards: &Vec<i32>) -> (total: Option<i32>)
    ensures
        match total {
            Some(t) => t == sum_by(sub_awards@, |a: i32| a as int),
            None => sum_by(sub_awards@, |a: i32| a as int) < i32::MIN || sum_by(
                sub_awards@,
                |a: i32| a as int,
            ) > i32::MAX,
        },
{
    let ghost f = |a: i32| a as int;
    let mut sum: i128 = 0;
    let mut i: usize = 0;
    proof {
        assert(sub_awards@.take(0) =~= Seq::<i32>::empty());
    }
    while i < sub_awards.len()
        invariant
            i <= sub_awards.len(),
            f == |a: i32| a as int,
            sum == sum_by(sub_awards@.take(i as int), f),
            -(i * 0x8000_0000) <= sum <= i * 0x8000_0000,
        decreases sub_awards.len() - i,
    {
        proof {
            lemma_sum_by_take(sub_awards@, i as int, f);
            assert((i + 1) * 0x8000_0000 == i * 0x8000_0000 + 0x8000_0000) by (nonlinear_arith);
            assert(i * 0x8000_0000 <= 0xffff_ffff_ffff_ffff * 0x8000_0000) by (nonlinear_arith)
                requires
                    i <= 0xffff_ffff_ffff_ffff,
            ;
        }
        sum = sum + sub_awards[i] as i128;
        i = i + 1;
    }
    assert(sub_awards@.take(sub_awards.len() as int) =~= sub_awards@);
    if sum < i32::MIN as i128 || sum > i32::MAX as i128 {
        None
    } else {
        Some(sum as i32)
    }
}

/// The product of two 32-bit numbers.
fn product(a: i32, b: i32) -> (p: i128)
    ensures
        p == a * b,
        -MAX_TERM <= p <= MAX_TERM,
        abs(p as int) <= MAX_TERM,
{
    assert(-0x4000_0000_0000_0000 <= a * b <= 0x4000_0000_0000_0000) by (nonlinear_arith)
        requires
            -0x8000_0000 <= a <= 0x7fff_ffff,
            -0x8000_0000 <= b <= 0x7fff_ffff,
    ;
    proof {
        lemma_abs(a * b);
    }
    a as i128 * b as i128
}

/// What an award adds to the streams.
pub fn streams_of_award(a: &AwardRecord) -> (streams: RevenueStreams)
    ensures
        streams@ == award_streams(*a),
        streams == streams_of(award_streams(*a)),
        streams@.magnitude() <= MAX_TERM,
{
    let p: i128 = product(a.award_kw, a.clearing_price);
    let earned: i128 = if a.award_kw > 0 && a.clearing_price > 0 {
        p
    } else {
        0
    };
    proof {
        lemma_abs(0);
    }
    match a.stream {
        RevenueStream::DamEnergy => if a.award_kw < 0 {
            RevenueStreams::single(0, p)
        } else {
            RevenueStreams::single(1, p)
        },
        RevenueStream::RegUp => RevenueStreams::single(3, earned),
        RevenueStream::RegDown => RevenueStreams::single(4, earned),
        RevenueStream::Rrs => RevenueStreams::single(5, earned),
        RevenueStream::Ecrs => RevenueStreams::single(6, earned),
        RevenueStream::NonSpin => RevenueStreams::single(7, earned),
    }
}

/// Revenue of one resource on one day.
#[derive(Debug)]
pub struct DailyRevenue {
    pub resource_name: String,
    /// Days since 1970-01-01.
    pub date: i32,
    pub streams: RevenueStreams,
    /// Number of awards and priced dispatch intervals behind the figures.
    pub records: u64,
}

impl DailyRevenue {
    /// The day's revenue as a ledger entry.
    pub open spec fn entry(self) -> Entry {
        Entry {
            resource_name: self.resource_name,
            period: self.date as i64,
            streams: self.streams,
            count: self.records,
        }
    }

    /// Revenue of all streams, summed from the streams.
    pub fn total_revenue(&self) -> (r: i128)
        requires
            self.streams.summable(),
        ensures
            r == self.streams@.total(),
    {
        self.streams.total_revenue()
    }
}

/// The ledger entries of daily revenues.
pub open spec fn daily_entries(daily: Seq<DailyRevenue>) -> Seq<Entry> {
    Seq::new(daily.len(), |i: int| daily[i].entry())
}

/// `rollup` is the rollup of `source`: one entry for each resource and
/// period that `source` has, holding the sum of the source's entries for
/// them, ordered by resource name and then period.
pub open spec fn is_rollup(rollup: Seq<Entry>, source: Seq<Entry>) -> bool {
    sorted_by_key(rollup) && groups(rollup, source)
}

/// The rollup of two batches of entries does not depend on which batch
/// comes first.
pub proof fn lemma_rollup_either_order(rollup: Seq<Entry>, a: Seq<Entry>, b: Seq<Entry>)
    requires
        is_rollup(rollup, a + b),
    ensures
        is_rollup(rollup, b + a),
{
    crate::ledger::lemma_groups_either_order(rollup, a, b);
}

/// Groups and sorts.
pub fn roll_up(source: &Vec<Entry>) -> (rollup: Vec<Entry>)
    requires
        summable(source@),
    ensures
        is_rollup(rollup@, source@),
        summable(rollup@),
        rollup.len() <= source.len(),
{
    let grouped: Vec<Entry> = group_entries(source);
    let sorted: Vec<Entry> = sort_entries(&grouped);
    proof {
        lemma_sorted_keys_distinct(sorted@);
        lemma_rearranged_groups(sorted@, grouped@, source@);
        assert(sum_by(sorted@, magnitude_term()) == sum_by(grouped@, magnitude_term()));
        assert(sum_by(sorted@, plain_count_term()) == sum_by(grouped@, plain_count_term()));
    }
    sorted
}

/// Reconciles awards and dispatch of battery resources into revenue.
pub struct BessRevenueCalculator {
    resources: Vec<BessResource>,
    overrides: Vec<SettlementOverride>,
    resource_places: StringHashMap<usize>,
    override_places: StringHashMap<usize>,
    index: PriceIndex,
    market: MarketType,
}

impl BessRevenueCalculator {
    #[verifier::type_invariant]
    spec fn tables_lead_to_lists(&self) -> bool {
        places_resources(self.resource_places@, self.resources@) && places_overrides(
            self.override_places@,
            self.overrides@,
        )
    }

    /// The resource list.
    pub closed spec fn resources(&self) -> Seq<BessResource> {
        self.resources@
    }

    /// The settlement points that take precedence over the resource list.
    pub closed spec fn overrides(&self) -> Seq<SettlementOverride> {
        self.overrides@
    }

    /// The real-time prices.
    pub closed spec fn index(&self) -> PriceIndex {
        self.index
    }

    /// The market whose intervals the dispatch is given in.
    pub closed spec fn market(&self) -> MarketType {
        self.market
    }

    /// What awards and dispatch contribute, record by record: awards
    /// first.
    pub open spec fn contributions(
        &self,
        awards: Seq<AwardRecord>,
        dispatch: Seq<DispatchInterval>,
    ) -> Seq<Entry> {
        award_entries(awards, self.resources()) + dispatch_entries(
            dispatch,
            self.resources(),
            self.overrides(),
            self.index(),
            self.market(),
        )
    }

    pub fn new(
        resources: Vec<BessResource>,
        overrides: Vec<SettlementOverride>,
        index: PriceIndex,
        market: MarketType,
    ) -> (calculator: Self)
        ensures
            calculator.resources() == resources@,
            calculator.overrides() == overrides@,
            calculator.index() == index,
            calculator.market() == market,
    {
        let resource_places: StringHashMap<usize> = index_resources(&resources);
        let override_places: StringHashMap<usize> = index_overrides(&overrides);
        BessRevenueCalculator { resources, overrides, resource_places, override_places, index, market }
    }

    /// The entries of the awards to known resources: day-ahead energy, split
    /// into what charging cost and what discharging earned, and the five
    /// ancillary services.
    pub fn calculate_award_revenues(&self, awards: &Vec<AwardRecord>) -> (entries: Vec<Entry>)
        ensures
            entries@ == award_entries(awards@, self.resources()),
            unit_entries(entries@),
            entries.len() <= awards.len(),
    {
        let mut entries: Vec<Entry> = Vec::new();
        let mut i: usize = 0;
        proof {
            assert(awards@.take(0) =~= Seq::<AwardRecord>::empty());
        }
        while i < awards.len()
            invariant
                i <= awards.len(),
                entries@ == award_entries(awards@.take(i as int), self.resources()),
                unit_entries(entries@),
                entries.len() <= i,
            decreases awards.len() - i,
        {
            let a: &AwardRecord = &awards[i];
            proof {
                assert(awards@.take(i + 1).drop_last() =~= awards@.take(i as int));
                assert(awards@.take(i + 1).last() == awards[i as int]);
            }
            proof {
                use_type_invariant(self);
            }
            match look_up_resource(&self.resource_places, &self.resources, &a.resource_id) {
                Some(_) => {
                    let ghost before = entries@;
                    let streams: RevenueStreams = streams_of_award(a);
                    entries.push(
                        Entry {
                            resource_name: a.resource_id.clone(),
                            period: a.date as i64,
                            streams,
                            count: 1,
                        },
                    );
                    proof {
                        assert(entries[entries.len() - 1] == award_entry(*a));
                        assert forall|m: int| 0 <= m < entries.len() implies (
                        #[trigger] entries[m]).count == 1 && entries[m].streams@.magnitude()
                            <= MAX_TERM && i32::MIN <= entries[m].period <= i32::MAX by {
                            if m < before.len() {
                                assert(entries[m] == before[m]);
                            }
                        }
                    }
                },
                None => {},
            }
            i = i + 1;
        }
        assert(awards@.take(awards.len() as int) =~= awards@);
        entries
    }

    /// The entries of the dispatch intervals that move power, belong to a
    /// known resource and have a price. The price is looked up at the
    /// resource's settlement point, the override taking precedence, and
    /// falls back to the hub; an interval without a price is skipped.
    pub fn calculate_rt_energy_revenues(&self, dispatch: &Vec<DispatchInterval>) -> (entries: Vec<
        Entry,
    >)
        ensures
            entries@ == dispatch_entries(
                dispatch@,
                self.resources(),
                self.overrides(),
                self.index(),
                self.market(),
            ),
            unit_entries(entries@),
            entries.len() <= dispatch.len(),
    {
        let mut entries: Vec<Entry> = Vec::new();
        let per_hour: i128 = self.market.intervals_per_hour() as i128;
        let mut i: usize = 0;
        proof {
            assert(dispatch@.take(0) =~= Seq::<DispatchInterval>::empty());
        }
        while i < dispatch.len()
            invariant
                i <= dispatch.len(),
                per_hour == self.market().spec_intervals_per_hour(),
                entries@ == dispatch_entries(
                    dispatch@.take(i as int),
                    self.resources(),
                    self.overrides(),
                    self.index(),
                    self.market(),
                ),
                unit_entries(entries@),
                entries.len() <= i,
            decreases dispatch.len() - i,
        {
            let d: &DispatchInterval = &dispatch[i];
            proof {
                assert(dispatch@.take(i + 1).drop_last() =~= dispatch@.take(i as int));
                assert(dispatch@.take(i + 1).last() == dispatch[i as int]);
            }
            let price: Option<i32> = self.price_for(d);
            match price {
                Some(p) => {
                    let ghost before = entries@;
                    let gross: i128 = product(d.signed_kw, p);
                    proof {
                        assert(per_hour * (-MAX_TERM) <= gross <= per_hour * MAX_TERM)
                            by (nonlinear_arith)
                            requires
                                -MAX_TERM <= gross <= MAX_TERM,
                                per_hour >= 1,
                                MAX_TERM >= 0,
                        ;
                        lemma_mean_in_range(
                            gross as int,
                            per_hour as int,
                            -(MAX_TERM as int),
                            MAX_TERM as int,
                        );
                        lemma_abs(gross as int / per_hour as int);
                    }
                    let revenue: i128 = floor_div(gross, per_hour);
                    let day: i32 = day_number(d.timestamp);
                    entries.push(
                        Entry {
                            resource_name: d.resource_id.clone(),
                            period: day as i64,
                            streams: RevenueStreams::single(2, revenue),
                            count: 1,
                        },
                    );
                    proof {
                        assert(entries[entries.len() - 1] == dispatch_entry(
                            *d,
                            p as int,
                            self.market(),
                        ));
                        assert forall|m: int| 0 <= m < entries.len() implies (
                        #[trigger] entries[m]).count == 1 && entries[m].streams@.magnitude()
                            <= MAX_TERM && i32::MIN <= entries[m].period <= i32::MAX by {
                            if m < before.len() {
                                assert(entries[m] == before[m]);
                            }
                        }
                    }
                },
                None => {},
            }
            i = i + 1;
        }
        assert(dispatch@.take(dispatch.len() as int) =~= dispatch@);
        entries
    }

    /// The real-time price that applies to a dispatch interval.
    pub fn price_for(&self, d: &DispatchInterval) -> (price: Option<i32>)
        ensures
            match price {
                Some(p) => dispatch_price(
                    *d,
                    self.resources(),
                    self.overrides(),
                    self.index(),
                    self.market(),
                ) == Some(p as int),
                None => dispatch_price(
                    *d,
                    self.resources(),
                    self.overrides(),
                    self.index(),
                    self.market(),
                ) is None,
            },
    {
        if d.signed_kw == 0 {
            return None;
        }
        proof {
            use_type_invariant(self);
        }
        match look_up_resource(&self.resource_places, &self.resources, &d.resource_id) {
            Some(at) => {
                let point: &String = match look_up_override(
                    &self.override_places,
                    &self.overrides,
                    &d.resource_id,
                ) {
                    Some(o) => &self.overrides[o].settlement_point,
                    None => &self.resources[at].settlement_point,
                };
                assert(settlement_point_of(self.resources(), self.overrides(), d.resource_id@)
                    == Some(point@));
                self.index.lookup(point.as_str(), d.timestamp, self.market)
            },
            None => None,
        }
    }

    /// Revenue by resource and day: one record for each resource and day
    /// that the entries have, by resource name and then date.
    pub fn create_daily_rollups_split(
        &self,
        award_revenues: Vec<Entry>,
        rt_revenues: Vec<Entry>,
    ) -> (daily: Vec<DailyRevenue>)
        requires
            unit_entries(award_revenues@),
            unit_entries(rt_revenues@),
        ensures
            is_rollup(daily_entries(daily@), award_revenues@ + rt_revenues@),
            summable(daily_entries(daily@)),
            daily.len() <= award_revenues.len() + rt_revenues.len(),
    {
        let mut all: Vec<Entry> = award_revenues;
        let mut rest: Vec<Entry> = rt_revenues;
        let ghost source = all@ + rest@;
        all.append(&mut rest);
        let count: usize = all.len();
        proof {
            assert(all@ == source);
            assert(unit_entries(all@));
            assert(all@.len() == count);
            lemma_unit_entries_summable(all@);
        }
        let rollup: Vec<Entry> = roll_up(&all);
        let mut daily: Vec<DailyRevenue> = Vec::new();
        let mut i: usize = 0;
        while i < rollup.len()
            invariant
                i <= rollup.len(),
                is_rollup(rollup@, source),
                unit_entries(source),
                daily.len() == i,
                forall|m: int| 0 <= m < i ==> (#[trigger] daily[m]).entry() == rollup[m],
            decreases rollup.len() - i,
        {
            let e: &Entry = &rollup[i];
            proof {
                let m = choose|m: int|
                    0 <= m < source.len() && (#[trigger] source[m]).resource_name@
                        == e.resource_name@ && source[m].period == e.period;
                assert(i32::MIN <= source[m].period <= i32::MAX);
            }
            daily.push(
                DailyRevenue {
                    resource_name: e.resource_name.clone(),
                    date: e.period as i32,
                    streams: e.streams,
                    records: e.count,
                },
            );
            i = i + 1;
        }
        assert(daily_entries(daily@) =~= rollup@);
        daily
    }
}

/// Hours at full power assumed for a resource whose duration is unknown.
pub const ASSUMED_DURATION_HOURS: u32 = 2;

/// Revenue of one resource in one month.
#[derive(Debug)]
pub struct MonthlyRevenue {
    pub resource_name: String,
    pub year: i32,
    /// 1 for January to 12 for December.
    pub month: u32,
    pub streams: RevenueStreams,
    pub days_active: u64,
}

impl MonthlyRevenue {
    /// The month's revenue as a ledger entry; months are counted from
    /// January of the year 0.
    pub open spec fn entry(self) -> Entry {
        Entry {
            resource_name: self.resource_name,
            period: (self.year * 12 + self.month - 1) as i64,
            streams: self.streams,
            count: self.days_active,
        }
    }

    /// Revenue of all streams, summed from the streams.
    pub fn total_revenue(&self) -> (r: i128)
        requires
            self.streams.summable(),
        ensures
            r == self.streams@.total(),
    {
        self.streams.total_revenue()
    }
}

/// Revenue of one resource in one year.
#[derive(Debug)]
pub struct AnnualRevenue {
    pub resource_name: String,
    pub year: i32,
    /// Rated power, kW; none for a resource that is not in the list.
    pub capacity_kw: Option<u32>,
    /// Hours at full power, as listed or as assumed.
    pub duration_hours: u32,
    pub streams: RevenueStreams,
    pub months_active: u64,
}

/// `total` over `divisor`, where the divisor is above zero.
pub open spec fn ratio(total: int, divisor: int) -> Option<int> {
    if divisor > 0 {
        Some(total / divisor)
    } else {
        None
    }
}

impl AnnualRevenue {
    /// The year's revenue as a ledger entry.
    pub open spec fn entry(self) -> Entry {
        Entry {
            resource_name: self.resource_name,
            period: self.year as i64,
            streams: self.streams,
            count: self.months_active,
        }
    }

    /// Rated power, zero where unknown.
    pub open spec fn power(self) -> int {
        match self.capacity_kw {
            Some(c) => c as int,
            None => 0,
        }
    }

    /// Revenue of all streams, summed from the streams.
    pub fn total_revenue(&self) -> (r: i128)
        requires
            self.streams.summable(),
        ensures
            r == self.streams@.total(),
    {
        self.streams.total_revenue()
    }

    /// Revenue per kW of rated power, millionths of a dollar; none where
    /// the power is unknown or zero.
    pub fn revenue_per_kw(&self) -> (r: Option<i128>)
        requires
            self.streams.summable(),
        ensures
            match r {
                Some(v) => ratio(self.streams@.total(), self.power()) == Some(v as int),
                None => ratio(self.streams@.total(), self.power()) is None,
            },
    {
        let total: i128 = self.streams.total_revenue();
        match self.capacity_kw {
            Some(c) => if c > 0 {
                Some(floor_div(total, c as i128))
            } else {
                None
            },
            None => None,
        }
    }

    /// Revenue per kWh of capacity, millionths of a dollar, the capacity
    /// being the rated power over the duration; none where that is unknown
    /// or zero.
    pub fn revenue_per_kwh(&self) -> (r: Option<i128>)
        requires
            self.streams.summable(),
        ensures
            match r {
                Some(v) => ratio(self.streams@.total(), self.power() * self.duration_hours) == Some(
                    v as int,
                ),
                None => ratio(self.streams@.total(), self.power() * self.duration_hours) is None,
            },
    {
        let total: i128 = self.streams.total_revenue();
        match self.capacity_kw {
            Some(c) => {
                assert(0 <= c * self.duration_hours <= 0xffff_ffff * 0xffff_ffff)
                    by (nonlinear_arith)
                    requires
                        0 <= c <= 0xffff_ffff,
                        0 <= self.duration_hours <= 0xffff_ffff,
                ;
                let capacity: i128 = c as i128 * self.duration_hours as i128;
                if capacity > 0 {
                    Some(floor_div(total, capacity))
                } else {
                    None
                }
            },
            None => None,
        }
    }
}

/// The ledger entries of monthly revenues.
pub open spec fn monthly_entries(monthly: Seq<MonthlyRevenue>) -> Seq<Entry> {
    Seq::new(monthly.len(), |i: int| monthly[i].entry())
}

/// The ledger entries of annual revenues.
pub open spec fn annual_entries(annual: Seq<AnnualRevenue>) -> Seq<Entry> {
    Seq::new(annual.len(), |i: int| annual[i].entry())
}

/// A day's revenue entered under the month `month`.
pub open spec fn month_entry(d: DailyRevenue, month: YearMonth) -> Entry {
    Entry {
        resource_name: d.resource_name,
        period: month.index() as i64,
        streams: d.streams,
        count: 1,
    }
}

/// The days that have a month, each entered under its month.
pub open spec fn month_entries(daily: Seq<DailyRevenue>, months: Seq<Option<YearMonth>>) -> Seq<
    Entry,
>
    decreases daily.len(),
{
    if daily.len() == 0 || months.len() != daily.len() {
        Seq::empty()
    } else {
        let rest = month_entries(daily.drop_last(), months.drop_last());
        match months.last() {
            Some(month) => rest.push(month_entry(daily.last(), month)),
            None => rest,
        }
    }
}

/// Each month entered under its year.
pub open spec fn year_entries(monthly: Seq<MonthlyRevenue>) -> Seq<Entry> {
    Seq::new(
        monthly.len(),
        |i: int|
            Entry {
                resource_name: monthly[i].resource_name,
                period: monthly[i].year as i64,
                streams: monthly[i].streams,
                count: 1,
            },
    )
}

/// The calendar month of each day, none where the calendar does not reach.
pub open spec fn civil_months(daily: Seq<DailyRevenue>) -> Seq<Option<YearMonth>> {
    Seq::new(daily.len(), |i: int| civil_month(daily[i].date as int))
}

/// Every month given is one of the twelve.
pub open spec fn months_valid(months: Seq<Option<YearMonth>>) -> bool {
    forall|i: int| 0 <= i < months.len() ==> ((#[trigger] months[i]) matches Some(m) ==> m.valid())
}

/// The months of the year `year`, as month numbers.
pub open spec fn in_year(year: int) -> spec_fn(int) -> bool {
    |p: int| p / 12 == year
}

/// `monthly` is the monthly rollup of `daily`, each day falling in the
/// month that `months` gives for it.
pub open spec fn is_monthly_rollup(
    monthly: Seq<MonthlyRevenue>,
    daily: Seq<DailyRevenue>,
    months: Seq<Option<YearMonth>>,
) -> bool {
    &&& is_rollup(monthly_entries(monthly), month_entries(daily, months))
    &&& forall|i: int| 0 <= i < monthly.len() ==> 1 <= (#[trigger] monthly[i]).month <= 12
}

/// `annual` is the annual rollup of `monthly`.
pub open spec fn is_annual_rollup(annual: Seq<AnnualRevenue>, monthly: Seq<MonthlyRevenue>) -> bool {
    is_rollup(annual_entries(annual), year_entries(monthly))
}

/// Revenue by stream of `resource` in `year`, summed over the annual
/// records.
pub open spec fn annual_sum(annual: Seq<AnnualRevenue>, resource: Seq<char>, year: int) -> StreamTotals {
    totals_where(annual_entries(annual), resource, only(year))
}

/// Revenue by stream of `resource` in `year`, summed over the monthly
/// records.
pub open spec fn monthly_sum(monthly: Seq<MonthlyRevenue>, resource: Seq<char>, year: int) -> StreamTotals {
    totals_where(monthly_entries(monthly), resource, in_year(year))
}

/// Revenue by stream of `resource` in `year`, summed over the daily records
/// whose month lies in that year.
pub open spec fn daily_sum(
    daily: Seq<DailyRevenue>,
    months: Seq<Option<YearMonth>>,
    resource: Seq<char>,
    year: int,
) -> StreamTotals {
    totals_where(month_entries(daily, months), resource, in_year(year))
}

/// Aggregation loses nothing and adds nothing: for every resource and
/// year, the annual records, the monthly records and the daily records sum
/// to the same revenue, stream by stream and in total.
pub proof fn lemma_rollups_agree(
    daily: Seq<DailyRevenue>,
    months: Seq<Option<YearMonth>>,
    monthly: Seq<MonthlyRevenue>,
    annual: Seq<AnnualRevenue>,
    resource: Seq<char>,
    year: int,
)
    requires
        is_monthly_rollup(monthly, daily, months),
        is_annual_rollup(annual, monthly),
    ensures
        annual_sum(annual, resource, year) == monthly_sum(monthly, resource, year),
        monthly_sum(monthly, resource, year) == daily_sum(daily, months, resource, year),
        annual_sum(annual, resource, year).total() == monthly_sum(monthly, resource, year).total(),
        monthly_sum(monthly, resource, year).total() == daily_sum(
            daily,
            months,
            resource,
            year,
        ).total(),
{
    let a = annual_entries(annual);
    let m = monthly_entries(monthly);
    let y = year_entries(monthly);
    let d = month_entries(daily, months);
    assert forall|k: int|
        sum_by(a, stream_term(resource, only(year), k)) == sum_by(
            m,
            stream_term(resource, in_year(year), k),
        ) by {
        let f = stream_term(resource, only(year), k);
        let g = stream_term(resource, in_year(year), k);
        assert(sum_by(a, stream_term(resource, only(year), k)) == sum_by(
            y,
            stream_term(resource, only(year), k),
        ));
        assert forall|i: int| 0 <= i < y.len() implies f(#[trigger] y[i]) == g(m[i]) by {
            assert(1 <= monthly[i].month <= 12);
            assert(m[i].period == monthly[i].year * 12 + monthly[i].month - 1);
            assert(m[i].period / 12 == monthly[i].year);
        }
        lemma_sum_by_pairwise(y, m, f, g);
    }
    assert forall|k: int|
        sum_by(m, stream_term(resource, in_year(year), k)) == sum_by(
            d,
            stream_term(resource, in_year(year), k),
        ) by {
        assert(sum_by(m, stream_term(resource, in_year(year), k)) == sum_by(
            d,
            stream_term(resource, in_year(year), k),
        ));
    }
}

/// In an annual rollup, the record of a resource and year holds what the
/// monthly records of that resource and year sum to.
pub proof fn lemma_annual_record_is_sum(
    monthly: Seq<MonthlyRevenue>,
    annual: Seq<AnnualRevenue>,
    i: int,
)
    requires
        is_annual_rollup(annual, monthly),
        forall|m: int| 0 <= m < monthly.len() ==> 1 <= (#[trigger] monthly[m]).month <= 12,
        0 <= i < annual.len(),
    ensures
        annual[i].streams@ == monthly_sum(
            monthly,
            annual[i].resource_name@,
            annual[i].year as int,
        ),
{
    let a = annual_entries(annual);
    let y = year_entries(monthly);
    let m = monthly_entries(monthly);
    let resource = annual[i].resource_name@;
    let year = annual[i].year as int;
    lemma_group_holds_key_total(a, y, i);
    assert(a[i].streams@ == totals_where(y, resource, only(year)));
    assert forall|k: int|
        sum_by(y, stream_term(resource, only(year), k)) == sum_by(
            m,
            stream_term(resource, in_year(year), k),
        ) by {
        let f = stream_term(resource, only(year), k);
        let g = stream_term(resource, in_year(year), k);
        assert forall|j: int| 0 <= j < y.len() implies f(#[trigger] y[j]) == g(m[j]) by {
            assert(1 <= monthly[j].month <= 12);
            assert(m[j].period == monthly[j].year * 12 + monthly[j].month - 1);
            assert(m[j].period / 12 == monthly[j].year);
        }
        lemma_sum_by_pairwise(y, m, f, g);
    }
}

proof fn lemma_month_entries_step(
    daily: Seq<DailyRevenue>,
    months: Seq<Option<YearMonth>>,
    i: int,
)
    requires
        months.len() == daily.len(),
        0 <= i < daily.len(),
    ensures
        month_entries(daily.take(i + 1), months.take(i + 1)) == (match months[i] {
            Some(month) => month_entries(daily.take(i), months.take(i)).push(
                month_entry(daily[i], month),
            ),
            None => month_entries(daily.take(i), months.take(i)),
        }),
{
    assert(daily.take(i + 1).drop_last() =~= daily.take(i));
    assert(months.take(i + 1).drop_last() =~= months.take(i));
    assert(months.take(i + 1).last() == months[i]);
    assert(daily.take(i + 1).last() == daily[i]);
}

/// The monthly rollup of `daily`, each day falling in the month that
/// `months` gives for it; a day without a month is left out.
pub fn rollup_months(daily: &Vec<DailyRevenue>, months: &Vec<Option<YearMonth>>) -> (monthly: Vec<
    MonthlyRevenue,
>)
    requires
        months.len() == daily.len(),
        months_valid(months@),
        ledger_magnitude(daily_entries(daily@)) <= i128::MAX,
    ensures
        is_monthly_rollup(monthly@, daily@, months@),
        summable(monthly_entries(monthly@)),
        monthly.len() <= daily.len(),
{
    let ghost source = daily_entries(daily@);
    let mut entries: Vec<Entry> = Vec::new();
    let mut i: usize = 0;
    proof {
        assert(daily@.take(0) =~= Seq::<DailyRevenue>::empty());
        assert(source.take(0) =~= Seq::<Entry>::empty());
        crate::ledger::lemma_stream_sizes(StreamTotals::zero());
    }
    while i < daily.len()
        invariant
            i <= daily.len(),
            months.len() == daily.len(),
            months_valid(months@),
            source == daily_entries(daily@),
            ledger_magnitude(source) <= i128::MAX,
            entries@ == month_entries(daily@.take(i as int), months@.take(i as int)),
            ledger_magnitude(entries@) <= sum_by(source.take(i as int), magnitude_term()),
            entries.len() <= i,
            forall|m: int|
                0 <= m < entries.len() ==> (#[trigger] entries[m]).count == 1 && i32::MIN
                    <= entries[m].period / 12 <= i32::MAX,
        decreases daily.len() - i,
    {
        let ghost before = entries@;
        proof {
            lemma_month_entries_step(daily@, months@, i as int);
            lemma_sum_by_take(source, i as int, magnitude_term());
            crate::ledger::lemma_stream_sizes(daily[i as int].streams@);
        }
        match months[i] {
            Some(month) => {
                let period: i64 = month.month_index();
                entries.push(
                    Entry {
                        resource_name: daily[i].resource_name.clone(),
                        period,
                        streams: daily[i].streams,
                        count: 1,
                    },
                );
                proof {
                    let last = entries[entries.len() - 1];
                    assert(last == month_entry(daily[i as int], month));
                    lemma_sum_by_push(before, last, magnitude_term());
                    assert forall|m: int| 0 <= m < entries.len() implies (
                    #[trigger] entries[m]).count == 1 && i32::MIN <= entries[m].period / 12
                        <= i32::MAX by {
                        if m < before.len() {
                            assert(entries[m] == before[m]);
                        }
                    }
                }
            },
            None => {},
        }
        i = i + 1;
    }
    proof {
        assert(daily@.take(daily.len() as int) =~= daily@);
        assert(months@.take(daily.len() as int) =~= months@);
        assert(source.take(daily.len() as int) =~= source);
        lemma_count_of_units(entries@);
    }
    let rollup: Vec<Entry> = roll_up(&entries);
    let mut monthly: Vec<MonthlyRevenue> = Vec::new();
    let mut j: usize = 0;
    while j < rollup.len()
        invariant
            j <= rollup.len(),
            is_rollup(rollup@, entries@),
            forall|m: int|
                0 <= m < entries.len() ==> i32::MIN <= (#[trigger] entries[m]).period / 12
                    <= i32::MAX,
            monthly.len() == j,
            forall|m: int| 0 <= m < j ==> (#[trigger] monthly[m]).entry() == rollup[m],
            forall|m: int| 0 <= m < j ==> 1 <= (#[trigger] monthly[m]).month <= 12,
        decreases rollup.len() - j,
    {
        let e: &Entry = &rollup[j];
        proof {
            let m = choose|m: int|
                0 <= m < entries.len() && (#[trigger] entries[m]).resource_name@
                    == e.resource_name@ && entries[m].period == e.period;
            assert(i32::MIN <= entries[m].period / 12 <= i32::MAX);
            vstd::arithmetic::div_mod::lemma_fundamental_div_mod(e.period as int, 12);
        }
        let year: i128 = floor_div(e.period as i128, 12);
        let month: i128 = floor_mod(e.period as i128, 12) + 1;
        monthly.push(
            MonthlyRevenue {
                resource_name: e.resource_name.clone(),
                year: year as i32,
                month: month as u32,
                streams: e.streams,
                days_active: e.count,
            },
        );
        j = j + 1;
    }
    assert(monthly_entries(monthly@) =~= rollup@);
    monthly
}

/// Whether the sizes of all streams of all records together are at most
/// `limit`.
pub fn daily_within(daily: &Vec<DailyRevenue>, limit: u128) -> (r: bool)
    requires
        limit <= i128::MAX,
    ensures
        r == (ledger_magnitude(daily_entries(daily@)) <= limit),
{
    let ghost entries = daily_entries(daily@);
    let mut sum: u128 = 0;
    let mut i: usize = 0;
    proof {
        assert(entries.take(0) =~= Seq::<Entry>::empty());
        crate::ledger::lemma_magnitudes_nonnegative(entries);
    }
    while i < daily.len()
        invariant
            i <= daily.len(),
            limit <= i128::MAX,
            entries == daily_entries(daily@),
            sum == ledger_magnitude(entries.take(i as int)),
            sum <= limit,
        decreases daily.len() - i,
    {
        proof {
            crate::ledger::lemma_magnitudes_nonnegative(entries);
            lemma_sum_by_take(entries, i as int, magnitude_term());
            assert(ledger_magnitude(entries.take(i + 1)) <= ledger_magnitude(entries));
            assert(entries[i as int].streams == daily[i as int].streams);
        }
        match daily[i].streams.checked_magnitude() {
            Some(size) => {
                if size > limit - sum {
                    return false;
                }
                sum = sum + size;
            },
            None => {
                return false;
            },
        }
        i = i + 1;
    }
    assert(entries.take(daily.len() as int) =~= entries);
    true
}

/// Whether the sizes of all streams of all records together are at most
/// `limit`.
pub fn monthly_within(monthly: &Vec<MonthlyRevenue>, limit: u128) -> (r: bool)
    requires
        limit <= i128::MAX,
    ensures
        r == (ledger_magnitude(monthly_entries(monthly@)) <= limit),
{
    let ghost entries = monthly_entries(monthly@);
    let mut sum: u128 = 0;
    let mut i: usize = 0;
    proof {
        assert(entries.take(0) =~= Seq::<Entry>::empty());
        crate::ledger::lemma_magnitudes_nonnegative(entries);
    }
    while i < monthly.len()
        invariant
            i <= monthly.len(),
            limit <= i128::MAX,
            entries == monthly_entries(monthly@),
            sum == ledger_magnitude(entries.take(i as int)),
            sum <= limit,
        decreases monthly.len() - i,
    {
        proof {
            crate::ledger::lemma_magnitudes_nonnegative(entries);
            lemma_sum_by_take(entries, i as int, magnitude_term());
            assert(ledger_magnitude(entries.take(i + 1)) <= ledger_magnitude(entries));
            assert(entries[i as int].streams == monthly[i as int].streams);
        }
        match monthly[i].streams.checked_magnitude() {
            Some(size) => {
                if size > limit - sum {
                    return false;
                }
                sum = sum + size;
            },
            None => {
                return false;
            },
        }
        i = i + 1;
    }
    assert(entries.take(monthly.len() as int) =~= entries);
    true
}

/// The calendar month of each day.
pub fn months_of(daily: &Vec<DailyRevenue>) -> (months: Vec<Option<YearMonth>>)
    ensures
        months@ == civil_months(daily@),
        months_valid(months@),
{
    let mut months: Vec<Option<YearMonth>> = Vec::new();
    let mut i: usize = 0;
    while i < daily.len()
        invariant
            i <= daily.len(),
            months.len() == i,
            forall|m: int| 0 <= m < i ==> #[trigger] months[m] == civil_month(daily[m].date as int),
            months_valid(months@),
        decreases daily.len() - i,
    {
        let month: Option<YearMonth> = month_of(daily[i].date);
        let ghost before = months@;
        months.push(month);
        proof {
            assert forall|m: int| 0 <= m < months.len() implies ((
            #[trigger] months[m]) matches Some(v) ==> v.valid()) by {
                if m < before.len() {
                    assert(months[m] == before[m]);
                }
            }
        }
        i = i + 1;
    }
    assert(months@ =~= civil_months(daily@));
    months
}

/// The monthly rollup of `daily` by calendar month.
pub fn aggregate_to_monthly(daily: &Vec<DailyRevenue>) -> (monthly: Vec<MonthlyRevenue>)
    requires
        ledger_magnitude(daily_entries(daily@)) <= i128::MAX,
    ensures
        is_monthly_rollup(monthly@, daily@, civil_months(daily@)),
        summable(monthly_entries(monthly@)),
        monthly.len() <= daily.len(),
{
    let months: Vec<Option<YearMonth>> = months_of(daily);
    rollup_months(daily, &months)
}

/// The monthly rollup of `daily` by calendar month, for any records: none
/// where the sizes of the streams together exceed what the type of a stream
/// holds, so that a sum might not fit.
pub fn try_aggregate_to_monthly(daily: &Vec<DailyRevenue>) -> (r: Option<Vec<MonthlyRevenue>>)
    ensures
        match r {
            Some(monthly) => ledger_magnitude(daily_entries(daily@)) <= i128::MAX
                && is_monthly_rollup(monthly@, daily@, civil_months(daily@)) && summable(
                monthly_entries(monthly@),
            ),
            None => ledger_magnitude(daily_entries(daily@)) > i128::MAX,
        },
{
    if daily_within(daily, 0x7fff_ffff_ffff_ffff_ffff_ffff_ffff_ffff) {
        Some(aggregate_to_monthly(daily))
    } else {
        None
    }
}

impl BessRevenueCalculator {
    /// The annual rollup of `monthly` for any records: none where the sizes
    /// of the streams together exceed what the type of a stream holds.
    pub fn try_aggregate_to_annual(&self, monthly: &Vec<MonthlyRevenue>) -> (r: Option<
        Vec<AnnualRevenue>,
    >)
        ensures
            match r {
                Some(annual) => ledger_magnitude(monthly_entries(monthly@)) <= i128::MAX
                    && is_annual_rollup(annual@, monthly@) && summable(annual_entries(annual@)),
                None => ledger_magnitude(monthly_entries(monthly@)) > i128::MAX,
            },
    {
        if monthly_within(monthly, 0x7fff_ffff_ffff_ffff_ffff_ffff_ffff_ffff) {
            Some(self.aggregate_to_annual(monthly))
        } else {
            None
        }
    }

    /// The annual rollup of `monthly`, each record with the rated power and
    /// duration of its resource: the power is none for a resource that is
    /// not in the list, the duration is the assumed one where none is
    /// listed.
    pub fn aggregate_to_annual(&self, monthly: &Vec<MonthlyRevenue>) -> (annual: Vec<AnnualRevenue>)
        requires
            ledger_magnitude(monthly_entries(monthly@)) <= i128::MAX,
        ensures
            is_annual_rollup(annual@, monthly@),
            summable(annual_entries(annual@)),
            annual.len() <= monthly.len(),
            forall|i: int|
                0 <= i < annual.len() ==> (#[trigger] annual[i]).capacity_kw == (if known(
                    self.resources(),
                    annual[i].resource_name@,
                ) {
                    Some(resource_named(self.resources(), annual[i].resource_name@).capacity_kw)
                } else {
                    None
                }),
            forall|i: int|
                0 <= i < annual.len() ==> (#[trigger] annual[i]).duration_hours == (if known(
                    self.resources(),
                    annual[i].resource_name@,
                ) {
                    match resource_named(
                        self.resources(),
                        annual[i].resource_name@,
                    ).duration_hours {
                        Some(h) => h,
                        None => ASSUMED_DURATION_HOURS,
                    }
                } else {
                    ASSUMED_DURATION_HOURS
                }),
    {
        let ghost source = monthly_entries(monthly@);
        let mut entries: Vec<Entry> = Vec::new();
        let mut i: usize = 0;
        while i < monthly.len()
            invariant
                i <= monthly.len(),
                entries.len() == i,
                forall|m: int|
                    0 <= m < i ==> #[trigger] entries[m] == (Entry {
                        resource_name: monthly[m].resource_name,
                        period: monthly[m].year as i64,
                        streams: monthly[m].streams,
                        count: 1,
                    }),
            decreases monthly.len() - i,
        {
            entries.push(
                Entry {
                    resource_name: monthly[i].resource_name.clone(),
                    period: monthly[i].year as i64,
                    streams: monthly[i].streams,
                    count: 1,
                },
            );
            i = i + 1;
        }
        proof {
            assert(entries@ =~= year_entries(monthly@));
            let f = magnitude_term();
            assert forall|m: int| 0 <= m < entries.len() implies f(#[trigger] entries[m]) == f(
                source[m],
            ) by {}
            lemma_sum_by_pairwise(entries@, source, f, f);
            lemma_count_of_units(entries@);
        }
        let rollup: Vec<Entry> = roll_up(&entries);
        let mut annual: Vec<AnnualRevenue> = Vec::new();
        let mut j: usize = 0;
        while j < rollup.len()
            invariant
                j <= rollup.len(),
                is_rollup(rollup@, entries@),
                entries@ == year_entries(monthly@),
                annual.len() == j,
                forall|m: int| 0 <= m < j ==> (#[trigger] annual[m]).entry() == rollup[m],
                forall|m: int|
                    0 <= m < j ==> (#[trigger] annual[m]).capacity_kw == (if known(
                        self.resources(),
                        annual[m].resource_name@,
                    ) {
                        Some(resource_named(self.resources(), annual[m].resource_name@).capacity_kw)
                    } else {
                        None
                    }),
                forall|m: int|
                    0 <= m < j ==> (#[trigger] annual[m]).duration_hours == (if known(
                        self.resources(),
                        annual[m].resource_name@,
                    ) {
                        match resource_named(
                            self.resources(),
                            annual[m].resource_name@,
                        ).duration_hours {
                            Some(h) => h,
                            None => ASSUMED_DURATION_HOURS,
                        }
                    } else {
                        ASSUMED_DURATION_HOURS
                    }),
            decreases rollup.len() - j,
        {
            let e: &Entry = &rollup[j];
            proof {
                let m = choose|m: int|
                    0 <= m < entries.len() && (#[trigger] entries[m]).resource_name@
                        == e.resource_name@ && entries[m].period == e.period;
                assert(entries[m].period == monthly[m].year);
            }
            proof {
                use_type_invariant(self);
            }
            let found: Option<usize> = look_up_resource(
                &self.resource_places,
                &self.resources,
                &e.resource_name,
            );
            let capacity_kw: Option<u32> = match found {
                Some(at) => Some(self.resources[at].capacity_kw),
                None => None,
            };
            let duration_hours: u32 = match found {
                Some(at) => match self.resources[at].duration_hours {
                    Some(h) => h,
                    None => ASSUMED_DURATION_HOURS,
                },
                None => ASSUMED_DURATION_HOURS,
            };
            let ghost before = annual@;
            annual.push(
                AnnualRevenue {
                    resource_name: e.resource_name.clone(),
                    year: e.period as i32,
                    capacity_kw,
                    duration_hours,
                    streams: e.streams,
                    months_active: e.count,
                },
            );
            proof {
                assert forall|m: int| 0 <= m < annual.len() implies (
                #[trigger] annual[m]).capacity_kw == (if known(
                    self.resources(),
                    annual[m].resource_name@,
                ) {
                    Some(resource_named(self.resources(), annual[m].resource_name@).capacity_kw)
                } else {
                    None
                }) by {
                    if m < before.len() {
                        assert(annual[m] == before[m]);
                    }
                }
                assert forall|m: int| 0 <= m < annual.len() implies (
                #[trigger] annual[m]).duration_hours == (if known(
                    self.resources(),
                    annual[m].resource_name@,
                ) {
                    match resource_named(
                        self.resources(),
                        annual[m].resource_name@,
                    ).duration_hours {
                        Some(h) => h,
                        None => ASSUMED_DURATION_HOURS,
                    }
                } else {
                    ASSUMED_DURATION_HOURS
                }) by {
                    if m < before.len() {
                        assert(annual[m] == before[m]);
                    }
                }
            }
            j = j + 1;
        }
        assert(annual_entries(annual@) =~= rollup@);
        annual
    }
}

/// Most records, awards and dispatch intervals together, that one report
/// takes: with more, a figure scaled to a year might not fit its type.
pub const MAX_REPORT_RECORDS: u64 = 100_000_000_000_000_000;

/// Everything the reconciliation yields.
#[derive(Debug)]
pub struct RevenueReport {
    pub daily: Vec<DailyRevenue>,
    pub issues: Vec<OperationalIssue>,
    pub monthly: Vec<MonthlyRevenue>,
    pub annual: Vec<AnnualRevenue>,
    pub leaderboard: Vec<RevenueBreakdown>,
    pub breakdown: Vec<RevenueBreakdown>,
}

impl BessRevenueCalculator {
    /// Compares each day of each resource with the resource's next day
    /// and reports swings in energy revenue and lapses of ancillary
    /// revenue.
    pub fn detect_operational_issues(&self, daily: &Vec<DailyRevenue>) -> (issues: Vec<
        OperationalIssue,
    >)
        requires
            ledger_magnitude(daily_entries(daily@)) <= i128::MAX,
        ensures
            issues@ == issues_upto(daily@, self.resources(), daily.len() as int),
    {
        detect_issues(daily, &self.resources)
    }

    /// Revenue per kW of the resources in the list, scaled to a year, the
    /// largest first.
    pub fn generate_performance_metrics(&self, daily: &Vec<DailyRevenue>) -> (rows: Vec<
        RevenueBreakdown,
    >)
        requires
            ledger_magnitude(daily_entries(daily@)) <= MAX_SCALABLE,
        ensures
            is_leaderboard(rows@, daily@, self.resources()),
    {
        leaderboard(daily, &self.resources)
    }

    /// Revenue by resource scaled to a year, stream by stream, the largest
    /// total revenue first.
    pub fn generate_detailed_revenue_breakdown(&self, daily: &Vec<DailyRevenue>) -> (rows: Vec<
        RevenueBreakdown,
    >)
        requires
            ledger_magnitude(daily_entries(daily@)) <= MAX_SCALABLE,
        ensures
            is_breakdown(rows@, daily@, self.resources()),
    {
        revenue_breakdown(daily, &self.resources)
    }

    /// The reconciliation of any awards and dispatch: none where there are
    /// more records than one report takes.
    pub fn try_calculate_all_revenues(
        &self,
        awards: &Vec<AwardRecord>,
        dispatch: &Vec<DispatchInterval>,
    ) -> (r: Option<RevenueReport>)
        ensures
            match r {
                Some(report) => awards.len() + dispatch.len() <= MAX_REPORT_RECORDS && is_rollup(
                    daily_entries(report.daily@),
                    self.contributions(awards@, dispatch@),
                ) && report.issues@ == issues_upto(
                    report.daily@,
                    self.resources(),
                    report.daily.len() as int,
                ) && is_monthly_rollup(report.monthly@, report.daily@, civil_months(report.daily@))
                    && is_annual_rollup(report.annual@, report.monthly@) && is_leaderboard(
                    report.leaderboard@,
                    report.daily@,
                    self.resources(),
                ) && is_breakdown(report.breakdown@, report.daily@, self.resources()),
                None => awards.len() + dispatch.len() > MAX_REPORT_RECORDS,
            },
    {
        let count: u128 = awards.len() as u128 + dispatch.len() as u128;
        if count <= MAX_REPORT_RECORDS as u128 {
            Some(self.calculate_all_revenues(awards, dispatch))
        } else {
            None
        }
    }

    /// Reconciles awards and dispatch: daily revenue by resource, the
    /// issues it hints at, the monthly and annual rollups, and the two
    /// tables of revenue scaled to a year.
    pub fn calculate_all_revenues(
        &self,
        awards: &Vec<AwardRecord>,
        dispatch: &Vec<DispatchInterval>,
    ) -> (report: RevenueReport)
        requires
            awards.len() + dispatch.len() <= MAX_REPORT_RECORDS,
        ensures
            is_rollup(daily_entries(report.daily@), self.contributions(awards@, dispatch@)),
            report.issues@ == issues_upto(
                report.daily@,
                self.resources(),
                report.daily.len() as int,
            ),
            is_monthly_rollup(report.monthly@, report.daily@, civil_months(report.daily@)),
            is_annual_rollup(report.annual@, report.monthly@),
            is_leaderboard(report.leaderboard@, report.daily@, self.resources()),
            is_breakdown(report.breakdown@, report.daily@, self.resources()),
    {
        let award_revenues: Vec<Entry> = self.calculate_award_revenues(awards);
        let rt_revenues: Vec<Entry> = self.calculate_rt_energy_revenues(dispatch);
        let ghost source = award_revenues@ + rt_revenues@;
        proof {
            assert(unit_entries(source));
            lemma_unit_entries_summable(source);
            assert(source.len() * MAX_TERM <= 100_000_000_000_000_000 * 0x4000_0000_0000_0000)
                by (nonlinear_arith)
                requires
                    source.len() <= 100_000_000_000_000_000,
                    MAX_TERM == 0x4000_0000_0000_0000,
            ;
        }
        let daily: Vec<DailyRevenue> = self.create_daily_rollups_split(award_revenues, rt_revenues);
        let issues: Vec<OperationalIssue> = self.detect_operational_issues(&daily);
        let monthly: Vec<MonthlyRevenue> = aggregate_to_monthly(&daily);
        let annual: Vec<AnnualRevenue> = self.aggregate_to_annual(&monthly);
        let leaderboard: Vec<RevenueBreakdown> = self.generate_performance_metrics(&daily);
        let breakdown: Vec<RevenueBreakdown> = self.generate_detailed_revenue_breakdown(&daily);
        RevenueReport { daily, issues, monthly, annual, leaderboard, breakdown }
    }
}

} // verus!
