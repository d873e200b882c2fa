//! Annualized revenue by resource: the detailed breakdown and the
//! leaderboard by revenue per kW.

use vstd::hash_map::StringHashMap;
use vstd::prelude::*;
use crate::ledger::Entry;
use crate::ledger::RevenueStreams;
use crate::ledger::StreamTotals;
use crate::ledger::count_term;
use crate::ledger::group_entries;
use crate::ledger::groups;
use crate::ledger::has_key;
use crate::ledger::ledger_magnitude;
use crate::ledger::lemma_group_holds_key_total;
use crate::ledger::lemma_magnitudes_nonnegative;
use crate::ledger::lemma_stream_sizes;
use crate::ledger::lemma_sum_by_nonnegative;
use crate::ledger::lemma_sum_by_pairwise;
use crate::ledger::magnitude_term;
use crate::ledger::only;
use crate::ledger::plain_count_term;
use crate::ledger::stream_term;
use crate::ledger::sum_by;
use crate::ledger::totals_where;
use crate::numeric::floor_div;
use crate::numeric::lemma_mean_in_range;
use crate::revenue::BessResource;
use crate::revenue::DailyRevenue;
use crate::revenue::daily_entries;
use crate::revenue::index_resources;
use crate::revenue::look_up_resource;
use crate::revenue::places_resources;
use crate::revenue::known;
use crate::revenue::resource_named;
use crate::stable_sort::is_stable_order;
use crate::stable_sort::lemma_stable_order_covers;
use crate::stable_sort::precedes;
use crate::stable_sort::sort_positions;

verus! {

/// Largest sum of magnitudes that can still be scaled to a year.
pub const MAX_SCALABLE: i128 = 466140228658819812963526859495572892;

/// Revenue of one resource scaled to a year.
#[derive(Debug)]
pub struct RevenueBreakdown {
    pub resource_name: String,
    /// Rated power, kW; none for a resource that is not in the list.
    pub capacity_kw: Option<u32>,
    /// Number of daily records of the resource.
    pub days: u64,
    /// Revenue over those days, all streams.
    pub total: i128,
    /// Each stream scaled to a year.
    pub annual: RevenueStreams,
    /// Energy revenue scaled to a year.
    pub energy_annual: i128,
    /// The five scaled ancillary streams together.
    pub ancillary_annual: i128,
    /// Total revenue scaled to a year.
    pub total_annual: i128,
    /// Scaled total revenue per kW of rated power; zero where the power is
    /// unknown or zero.
    pub revenue_per_kw: i128,
}

/// `amount` earned over `days` days, scaled to a year.
pub open spec fn annualize(amount: int, days: int) -> int {
    amount * 365 / days
}

/// Every period.
pub open spec fn always() -> spec_fn(int) -> bool {
    |p: int| true
}

/// One for an entry of `name`, zero for any other.
pub open spec fn day_term(name: Seq<char>) -> spec_fn(Entry) -> int {
    |e: Entry|
        if e.resource_name@ == name {
            1int
        } else {
            0int
        }
}

/// Revenue by stream of the resource `name` over all its days.
pub open spec fn resource_total(daily: Seq<DailyRevenue>, name: Seq<char>) -> StreamTotals {
    totals_where(daily_entries(daily), name, always())
}

/// Number of daily records of the resource `name`.
pub open spec fn resource_days(daily: Seq<DailyRevenue>, name: Seq<char>) -> int {
    sum_by(daily_entries(daily), day_term(name))
}

/// Scaled total over rated power; zero without a rated power above zero.
pub open spec fn per_kw(total_annual: int, capacity_kw: Option<u32>) -> int {
    match capacity_kw {
        Some(c) => if c > 0 {
            total_annual / (c as int)
        } else {
            0
        },
        None => 0,
    }
}

/// Each stream of `t` scaled to a year.
pub open spec fn annual_streams(t: StreamTotals, days: int) -> StreamTotals {
    StreamTotals {
        dam_charge_cost: annualize(t.dam_charge_cost, days),
        dam_discharge_revenue: annualize(t.dam_discharge_revenue, days),
        rt_energy_revenue: annualize(t.rt_energy_revenue, days),
        reg_up_revenue: annualize(t.reg_up_revenue, days),
        reg_down_revenue: annualize(t.reg_down_revenue, days),
        rrs_revenue: annualize(t.rrs_revenue, days),
        ecrs_revenue: annualize(t.ecrs_revenue, days),
        non_spin_revenue: annualize(t.non_spin_revenue, days),
    }
}

/// The row is that of a resource that earned `t` over `days` days and has
/// the rated power `capacity_kw`.
pub open spec fn row_from(
    row: RevenueBreakdown,
    t: StreamTotals,
    days: int,
    capacity_kw: Option<u32>,
) -> bool {
    &&& row.days == days
    &&& row.capacity_kw == capacity_kw
    &&& row.total == t.total()
    &&& row.annual@ == annual_streams(t, days)
    &&& row.energy_annual == annualize(t.energy(), days)
    &&& row.ancillary_annual == row.annual@.ancillary()
    &&& row.total_annual == annualize(t.total(), days)
    &&& row.revenue_per_kw == per_kw(row.total_annual as int, row.capacity_kw)
}

/// The row holds what the daily records of its resource give.
pub open spec fn row_matches(
    row: RevenueBreakdown,
    daily: Seq<DailyRevenue>,
    resources: Seq<BessResource>,
) -> bool {
    &&& resource_days(daily, row.resource_name@) >= 1
    &&& row_from(
        row,
        resource_total(daily, row.resource_name@),
        resource_days(daily, row.resource_name@),
        if known(resources, row.resource_name@) {
            Some(resource_named(resources, row.resource_name@).capacity_kw)
        } else {
            None
        },
    )
}

/// No two rows are of the same resource.
pub open spec fn names_distinct(rows: Seq<RevenueBreakdown>) -> bool {
    forall|i: int, j: int|
        0 <= i < rows.len() && 0 <= j < rows.len() && i != j ==> (#[trigger] rows[i]).resource_name@
            != (#[trigger] rows[j]).resource_name@
}

/// Some row is of the resource `name`.
pub open spec fn has_row(rows: Seq<RevenueBreakdown>, name: Seq<char>) -> bool {
    exists|i: int| 0 <= i < rows.len() && (#[trigger] rows[i]).resource_name@ == name
}

/// Some daily record is of the resource `name`.
pub open spec fn has_day(daily: Seq<DailyRevenue>, name: Seq<char>) -> bool {
    exists|i: int| 0 <= i < daily.len() && (#[trigger] daily[i]).resource_name@ == name
}

/// One matching row for each resource that has daily records, and no
/// other; with `listed_only`, for each such resource of the list.
pub open spec fn rows_cover(
    rows: Seq<RevenueBreakdown>,
    daily: Seq<DailyRevenue>,
    resources: Seq<BessResource>,
    listed_only: bool,
) -> bool {
    &&& names_distinct(rows)
    &&& forall|i: int| 0 <= i < rows.len() ==> row_matches(#[trigger] rows[i], daily, resources)
    &&& forall|i: int| 0 <= i < rows.len() ==> has_day(daily, (#[trigger] rows[i]).resource_name@)
    &&& forall|i: int|
        0 <= i < rows.len() && listed_only ==> known(resources, (#[trigger] rows[i]).resource_name@)
    &&& forall|i: int|
        0 <= i < daily.len() && (!listed_only || known(
            resources,
            (#[trigger] daily[i]).resource_name@,
        )) ==> has_row(rows, daily[i].resource_name@)
}

/// The breakdown of `daily`: a row for each resource, the largest total
/// revenue first.
pub open spec fn is_breakdown(
    rows: Seq<RevenueBreakdown>,
    daily: Seq<DailyRevenue>,
    resources: Seq<BessResource>,
) -> bool {
    &&& rows_cover(rows, daily, resources, false)
    &&& forall|i: int, j: int|
        0 <= i < j < rows.len() ==> (#[trigger] rows[i]).total >= (#[trigger] rows[j]).total
}

/// The leaderboard of `daily`: a row for each resource of the list, the
/// largest revenue per kW first.
pub open spec fn is_leaderboard(
    rows: Seq<RevenueBreakdown>,
    daily: Seq<DailyRevenue>,
    resources: Seq<BessResource>,
) -> bool {
    &&& rows_cover(rows, daily, resources, true)
    &&& forall|i: int, j: int|
        0 <= i < j < rows.len() ==> (#[trigger] rows[i]).revenue_per_kw >= (
        #[trigger] rows[j]).revenue_per_kw
}

/// An amount scaled to a year.
fn annualized(amount: i128, days: u64) -> (r: i128)
    requires
        days >= 1,
        -MAX_SCALABLE <= amount <= MAX_SCALABLE,
    ensures
        r == annualize(amount as int, days as int),
        -365 * MAX_SCALABLE <= r <= 365 * MAX_SCALABLE,
        crate::ledger::abs(r as int) <= 365 * crate::ledger::abs(amount as int),
{
    let scaled: i128 = amount * 365;
    proof {
        reveal(crate::ledger::abs);
        if amount >= 0 {
            assert(days * 0 <= scaled <= days * scaled) by (nonlinear_arith)
                requires
                    days >= 1,
                    scaled >= 0,
            ;
            lemma_mean_in_range(scaled as int, days as int, 0, scaled as int);
        } else {
            assert(days * scaled <= scaled <= days * 0) by (nonlinear_arith)
                requires
                    days >= 1,
                    scaled <= 0,
            ;
            lemma_mean_in_range(scaled as int, days as int, scaled as int, 0);
        }
    }
    floor_div(scaled, days as i128)
}

/// A copy of a row.
fn copy_row(row: &RevenueBreakdown) -> (c: RevenueBreakdown)
    ensures
        c == *row,
{
    RevenueBreakdown {
        resource_name: row.resource_name.clone(),
        capacity_kw: row.capacity_kw,
        days: row.days,
        total: row.total,
        annual: row.annual,
        energy_annual: row.energy_annual,
        ancillary_annual: row.ancillary_annual,
        total_annual: row.total_annual,
        revenue_per_kw: row.revenue_per_kw,
    }
}

/// `out` is `rows` put in the order `ord`, which is the stable ascending
/// order of `keys`.
pub open spec fn placed(
    out: Seq<RevenueBreakdown>,
    rows: Seq<RevenueBreakdown>,
    keys: Seq<int>,
    ord: Seq<usize>,
) -> bool {
    &&& is_stable_order(keys, ord)
    &&& keys.len() == rows.len()
    &&& out.len() == rows.len()
    &&& forall|i: int| 0 <= i < out.len() ==> #[trigger] out[i] == rows[ord[i] as int]
}

/// The rows of `rows` in the stable ascending order of `keys`.
fn arrange_rows(rows: &Vec<RevenueBreakdown>, keys: &Vec<i128>) -> (r: (
    Vec<RevenueBreakdown>,
    Ghost<Seq<usize>>,
))
    requires
        keys.len() == rows.len(),
    ensures
        placed(r.0@, rows@, keys@.map_values(|k: i128| k as int), r.1@),
{
    let ghost ks = keys@.map_values(|k: i128| k as int);
    let ord: Vec<usize> = sort_positions(keys);
    let mut out: Vec<RevenueBreakdown> = Vec::new();
    let mut i: usize = 0;
    while i < rows.len()
        invariant
            i <= rows.len(),
            ord.len() == rows.len(),
            keys.len() == rows.len(),
            ks == keys@.map_values(|k: i128| k as int),
            is_stable_order(ks, ord@),
            out.len() == i,
            forall|m: int| 0 <= m < i ==> #[trigger] out[m] == rows[ord[m] as int],
        decreases rows.len() - i,
    {
        assert(0 <= ord[i as int] < rows.len());
        out.push(copy_row(&rows[ord[i]]));
        i = i + 1;
    }
    (out, Ghost(ord@))
}

/// Rows put in another order cover what they covered.
proof fn lemma_placed_cover(
    out: Seq<RevenueBreakdown>,
    rows: Seq<RevenueBreakdown>,
    keys: Seq<int>,
    ord: Seq<usize>,
    daily: Seq<DailyRevenue>,
    resources: Seq<BessResource>,
    listed_only: bool,
)
    requires
        placed(out, rows, keys, ord),
        rows_cover(rows, daily, resources, listed_only),
    ensures
        rows_cover(out, daily, resources, listed_only),
        forall|i: int, j: int|
            0 <= i < j < out.len() ==> keys[(#[trigger] ord[i]) as int] <= keys[(
            #[trigger] ord[j]) as int],
{
    assert forall|a: int, b: int|
        0 <= a < out.len() && 0 <= b < out.len() && a != b implies (
    #[trigger] out[a]).resource_name@ != (#[trigger] out[b]).resource_name@ by {
        assert(0 <= ord[a] < rows.len());
        assert(0 <= ord[b] < rows.len());
        if a < b {
            assert(precedes(keys, ord[a] as int, ord[b] as int));
        } else {
            assert(precedes(keys, ord[b] as int, ord[a] as int));
        }
        assert(ord[a] != ord[b]);
        assert(out[a] == rows[ord[a] as int]);
        assert(out[b] == rows[ord[b] as int]);
    }
    assert forall|i: int| 0 <= i < out.len() implies row_matches(
        #[trigger] out[i],
        daily,
        resources,
    ) && has_day(daily, out[i].resource_name@) && (listed_only ==> known(
        resources,
        out[i].resource_name@,
    )) by {
        assert(0 <= ord[i] < rows.len());
        assert(out[i] == rows[ord[i] as int]);
        assert(row_matches(rows[ord[i] as int], daily, resources));
        assert(has_day(daily, rows[ord[i] as int].resource_name@));
    }
    assert forall|i: int|
        0 <= i < daily.len() && (!listed_only || known(
            resources,
            (#[trigger] daily[i]).resource_name@,
        )) implies has_row(out, daily[i].resource_name@) by {
        assert(has_row(rows, daily[i].resource_name@));
        let x = choose|x: int|
            0 <= x < rows.len() && (#[trigger] rows[x]).resource_name@ == daily[i].resource_name@;
        lemma_stable_order_covers(keys, ord, x);
        let a = choose|a: int| 0 <= a < ord.len() && ord[a] == x;
        assert(out[a] == rows[x]);
    }
    assert forall|i: int, j: int| 0 <= i < j < out.len() implies keys[(#[trigger] ord[i]) as int]
        <= keys[(#[trigger] ord[j]) as int] by {
        assert(precedes(keys, ord[i] as int, ord[j] as int));
    }
}

/// The row of a resource that earned `streams` over `days` days.
fn build_row(name: &String, streams: &RevenueStreams, days: u64, capacity_kw: Option<u32>) -> (row:
    RevenueBreakdown)
    requires
        days >= 1,
        streams@.magnitude() <= MAX_SCALABLE,
    ensures
        row.resource_name@ == name@,
        row_from(row, streams@, days as int, capacity_kw),
        -365 * MAX_SCALABLE <= row.revenue_per_kw <= 365 * MAX_SCALABLE,
        -MAX_SCALABLE <= row.total <= MAX_SCALABLE,
{
    proof {
        lemma_stream_sizes(streams@);
        crate::ledger::lemma_abs(streams@.energy());
        crate::ledger::lemma_abs(streams@.total());
    }
    let annual: RevenueStreams = RevenueStreams {
        dam_charge_cost: annualized(streams.dam_charge_cost, days),
        dam_discharge_revenue: annualized(streams.dam_discharge_revenue, days),
        rt_energy_revenue: annualized(streams.rt_energy_revenue, days),
        reg_up_revenue: annualized(streams.reg_up_revenue, days),
        reg_down_revenue: annualized(streams.reg_down_revenue, days),
        rrs_revenue: annualized(streams.rrs_revenue, days),
        ecrs_revenue: annualized(streams.ecrs_revenue, days),
        non_spin_revenue: annualized(streams.non_spin_revenue, days),
    };
    let energy: i128 = streams.energy_revenue();
    let total: i128 = streams.total_revenue();
    let energy_annual: i128 = annualized(energy, days);
    let total_annual: i128 = annualized(total, days);
    let ancillary_annual: i128 = sum_of_services(&annual, streams);
    proof {
        lemma_per_kw_bound(total_annual as int, capacity_kw);
    }
    let revenue_per_kw: i128 = match capacity_kw {
        Some(c) => if c > 0 {
            floor_div(total_annual, c as i128)
        } else {
            0
        },
        None => 0,
    };
    RevenueBreakdown {
        resource_name: name.clone(),
        capacity_kw,
        days,
        total,
        annual,
        energy_annual,
        ancillary_annual,
        total_annual,
        revenue_per_kw,
    }
}

/// The five scaled ancillary streams together.
fn sum_of_services(annual: &RevenueStreams, streams: &RevenueStreams) -> (r: i128)
    requires
        streams@.magnitude() <= MAX_SCALABLE,
        crate::ledger::abs(annual.reg_up_revenue as int) <= 365 * crate::ledger::abs(
            streams.reg_up_revenue as int,
        ),
        crate::ledger::abs(annual.reg_down_revenue as int) <= 365 * crate::ledger::abs(
            streams.reg_down_revenue as int,
        ),
        crate::ledger::abs(annual.rrs_revenue as int) <= 365 * crate::ledger::abs(
            streams.rrs_revenue as int,
        ),
        crate::ledger::abs(annual.ecrs_revenue as int) <= 365 * crate::ledger::abs(
            streams.ecrs_revenue as int,
        ),
        crate::ledger::abs(annual.non_spin_revenue as int) <= 365 * crate::ledger::abs(
            streams.non_spin_revenue as int,
        ),
    ensures
        r == annual@.ancillary(),
{
    proof {
        lemma_stream_sizes(streams@);
        lemma_stream_sizes(annual@);
    }
    annual.reg_up_revenue + annual.reg_down_revenue + annual.rrs_revenue + annual.ecrs_revenue
        + annual.non_spin_revenue
}

/// One row for each resource that has daily records.
pub fn resource_rows(daily: &Vec<DailyRevenue>, resources: &Vec<BessResource>) -> (rows: Vec<
    RevenueBreakdown,
>)
    requires
        ledger_magnitude(daily_entries(daily@)) <= MAX_SCALABLE,
    ensures
        rows_cover(rows@, daily@, resources@, false),
        rows.len() <= daily.len(),
        forall|i: int|
            0 <= i < rows.len() ==> -MAX_SCALABLE <= (#[trigger] rows[i]).total <= MAX_SCALABLE
                && -365 * MAX_SCALABLE <= rows[i].revenue_per_kw <= 365 * MAX_SCALABLE,
{
    let ghost source = daily_entries(daily@);
    let mut entries: Vec<Entry> = Vec::new();
    let mut i: usize = 0;
    while i < daily.len()
        invariant
            i <= daily.len(),
            entries.len() == i,
            forall|m: int|
                0 <= m < i ==> #[trigger] entries[m] == (Entry {
                    resource_name: daily[m].resource_name,
                    period: 0,
                    streams: daily[m].streams,
                    count: 1,
                }),
        decreases daily.len() - i,
    {
        entries.push(
            Entry {
                resource_name: daily[i].resource_name.clone(),
                period: 0,
                streams: daily[i].streams,
                count: 1,
            },
        );
        i = i + 1;
    }
    proof {
        let f = magnitude_term();
        assert forall|m: int| 0 <= m < entries.len() implies f(#[trigger] entries[m]) == f(
            source[m],
        ) by {}
        lemma_sum_by_pairwise(entries@, source, f, f);
        let g = plain_count_term();
        let one = |e: Entry| 1int;
        assert forall|m: int| 0 <= m < entries.len() implies g(#[trigger] entries[m]) == one(
            entries[m],
        ) by {}
        crate::ledger::lemma_sum_by_agree(entries@, g, one);
        assert forall|m: int| 0 <= m < entries.len() implies -1 <= one(#[trigger] entries[m])
            <= 1 by {}
        crate::ledger::lemma_sum_by_bounded(entries@, one, 1);
        assert(entries.len() * 1 == entries.len());
    }
    let grouped: Vec<Entry> = group_entries(&entries);
    let places: StringHashMap<usize> = index_resources(resources);
    let mut rows: Vec<RevenueBreakdown> = Vec::new();
    let mut j: usize = 0;
    while j < grouped.len()
        invariant
            j <= grouped.len(),
            places_resources(places@, resources@),
            source == daily_entries(daily@),
            entries.len() == daily.len(),
            forall|m: int|
                0 <= m < entries.len() ==> #[trigger] entries[m] == (Entry {
                    resource_name: daily[m].resource_name,
                    period: 0,
                    streams: daily[m].streams,
                    count: 1,
                }),
            groups(grouped@, entries@),
            ledger_magnitude(entries@) <= MAX_SCALABLE,
            rows.len() == j,
            forall|m: int| 0 <= m < j ==> (#[trigger] rows[m]).resource_name@ == grouped[m].resource_name@,
            forall|m: int| 0 <= m < j ==> row_matches(#[trigger] rows[m], daily@, resources@),
            forall|m: int|
                0 <= m < j ==> -MAX_SCALABLE <= (#[trigger] rows[m]).total <= MAX_SCALABLE && -365
                    * MAX_SCALABLE <= rows[m].revenue_per_kw <= 365 * MAX_SCALABLE,
        decreases grouped.len() - j,
    {
        let g: &Entry = &grouped[j];
        let ghost name = g.resource_name@;
        let ghost t = resource_total(daily@, name);
        let ghost days = resource_days(daily@, name);
        proof {
            lemma_group_holds_key_total(grouped@, entries@, j as int);
            let m0 = choose|m: int|
                0 <= m < entries.len() && (#[trigger] entries[m]).resource_name@ == name
                    && entries[m].period == g.period;
            assert(entries[m0].period == 0);
            assert(g.period == 0);
            assert forall|k: int|
                sum_by(entries@, stream_term(name, only(0), k)) == sum_by(
                    source,
                    stream_term(name, always(), k),
                ) by {
                let f = stream_term(name, only(0), k);
                let h = stream_term(name, always(), k);
                assert forall|m: int| 0 <= m < entries.len() implies f(#[trigger] entries[m])
                    == h(source[m]) by {}
                lemma_sum_by_pairwise(entries@, source, f, h);
            }
            assert(g.streams@ == t);
            let c = count_term(name, only(0));
            let d = day_term(name);
            assert forall|m: int| 0 <= m < entries.len() implies c(#[trigger] entries[m]) == d(
                source[m],
            ) by {}
            lemma_sum_by_pairwise(entries@, source, c, d);
            assert(g.count == days);
            assert forall|m: int| 0 <= m < source.len() implies d(#[trigger] source[m]) >= 0 by {}
            lemma_sum_by_nonnegative(source, d);
            assert(d(source[m0]) == 1);
            assert(days >= 1);
            lemma_magnitudes_nonnegative(grouped@);
            lemma_magnitudes_nonnegative(entries@);
            lemma_stream_sizes(g.streams@);
        }
        let capacity_kw: Option<u32> = match look_up_resource(
            &places,
            resources,
            &g.resource_name,
        ) {
            Some(at) => Some(resources[at].capacity_kw),
            None => None,
        };
        let ghost before = rows@;
        let row: RevenueBreakdown = build_row(&g.resource_name, &g.streams, g.count, capacity_kw);
        rows.push(row);
        proof {
            let row = rows[j as int];
            assert(row_matches(row, daily@, resources@));
            assert forall|m: int| 0 <= m < rows.len() implies row_matches(
                #[trigger] rows[m],
                daily@,
                resources@,
            ) by {
                if m < before.len() {
                    assert(rows[m] == before[m]);
                }
            }
            assert forall|m: int| 0 <= m < rows.len() implies (#[trigger] rows[m]).resource_name@
                == grouped[m].resource_name@ by {
                if m < before.len() {
                    assert(rows[m] == before[m]);
                }
            }
            assert forall|m: int| 0 <= m < rows.len() implies -MAX_SCALABLE <= (
            #[trigger] rows[m]).total <= MAX_SCALABLE && -365 * MAX_SCALABLE
                <= rows[m].revenue_per_kw <= 365 * MAX_SCALABLE by {
                if m < before.len() {
                    assert(rows[m] == before[m]);
                }
            }
        }
        j = j + 1;
    }
    proof {
        assert(names_distinct(rows@)) by {
            assert forall|a: int, b: int|
                0 <= a < rows.len() && 0 <= b < rows.len() && a != b implies (
            #[trigger] rows[a]).resource_name@ != (#[trigger] rows[b]).resource_name@ by {
                assert(has_key(entries@, grouped[a].resource_name@, grouped[a].period as int));
                assert(has_key(entries@, grouped[b].resource_name@, grouped[b].period as int));
                let x = choose|x: int|
                    0 <= x < entries.len() && (#[trigger] entries[x]).resource_name@
                        == grouped[a].resource_name@ && entries[x].period == grouped[a].period;
                let y = choose|y: int|
                    0 <= y < entries.len() && (#[trigger] entries[y]).resource_name@
                        == grouped[b].resource_name@ && entries[y].period == grouped[b].period;
                assert(entries[x].period == 0 && entries[y].period == 0);
                assert(rows[a].resource_name@ == grouped[a].resource_name@);
                assert(rows[b].resource_name@ == grouped[b].resource_name@);
            }
        }
        assert forall|a: int| 0 <= a < rows.len() implies has_day(
            daily@,
            (#[trigger] rows[a]).resource_name@,
        ) by {
            assert(has_key(entries@, grouped[a].resource_name@, grouped[a].period as int));
            let x = choose|x: int|
                0 <= x < entries.len() && (#[trigger] entries[x]).resource_name@
                    == grouped[a].resource_name@ && entries[x].period == grouped[a].period;
            assert(daily[x].resource_name@ == rows[a].resource_name@);
        }
        assert forall|a: int| 0 <= a < daily.len() implies has_row(
            rows@,
            (#[trigger] daily[a]).resource_name@,
        ) by {
            assert(has_key(grouped@, entries[a].resource_name@, entries[a].period as int));
            let x = choose|x: int|
                0 <= x < grouped.len() && (#[trigger] grouped[x]).resource_name@
                    == entries[a].resource_name@ && grouped[x].period == entries[a].period;
            assert(rows[x].resource_name@ == daily[a].resource_name@);
        }
    }
    rows
}

/// Revenue by resource scaled to a year, stream by stream, the largest
/// total revenue first.
pub fn revenue_breakdown(daily: &Vec<DailyRevenue>, resources: &Vec<BessResource>) -> (rows: Vec<
    RevenueBreakdown,
>)
    requires
        ledger_magnitude(daily_entries(daily@)) <= MAX_SCALABLE,
    ensures
        is_breakdown(rows@, daily@, resources@),
{
    let unsorted: Vec<RevenueBreakdown> = resource_rows(daily, resources);
    let mut keys: Vec<i128> = Vec::new();
    let mut i: usize = 0;
    while i < unsorted.len()
        invariant
            i <= unsorted.len(),
            keys.len() == i,
            forall|m: int|
                0 <= m < unsorted.len() ==> -MAX_SCALABLE <= (#[trigger] unsorted[m]).total
                    <= MAX_SCALABLE,
            forall|m: int| 0 <= m < i ==> #[trigger] keys[m] == -unsorted[m].total,
        decreases unsorted.len() - i,
    {
        keys.push(-unsorted[i].total);
        i = i + 1;
    }
    let (rows, Ghost(ord)) = arrange_rows(&unsorted, &keys);
    proof {
        let ks = keys@.map_values(|k: i128| k as int);
        lemma_placed_cover(rows@, unsorted@, ks, ord, daily@, resources@, false);
        assert forall|a: int, b: int| 0 <= a < b < rows.len() implies (#[trigger] rows[a]).total >= (
        #[trigger] rows[b]).total by {
            let x = ord[a] as int;
            let y = ord[b] as int;
            assert(0 <= ord[a] < unsorted.len());
            assert(0 <= ord[b] < unsorted.len());
            assert(ks[x] <= ks[y]);
            assert(keys[x] == -unsorted[x].total);
            assert(keys[y] == -unsorted[y].total);
            assert(rows[a] == unsorted[x] && rows[b] == unsorted[y]);
        }
    }
    rows
}

/// The rows of the resources of the list.
fn listed_rows(
    all: &Vec<RevenueBreakdown>,
    Ghost(daily): Ghost<Seq<DailyRevenue>>,
    Ghost(resources): Ghost<Seq<BessResource>>,
) -> (listed: Vec<RevenueBreakdown>)
    requires
        rows_cover(all@, daily, resources, false),
    ensures
        rows_cover(listed@, daily, resources, true),
        forall|i: int| 0 <= i < listed.len() ==> all@.contains(#[trigger] listed[i]),
{
    let mut listed: Vec<RevenueBreakdown> = Vec::new();
    let mut i: usize = 0;
    while i < all.len()
        invariant
            i <= all.len(),
            rows_cover(all@, daily, resources, false),
            names_distinct(listed@),
            forall|m: int|
                0 <= m < listed.len() ==> exists|x: int|
                    0 <= x < i && all[x] == #[trigger] listed[m],
            forall|m: int|
                0 <= m < listed.len() ==> known(resources, (#[trigger] listed[m]).resource_name@),
            forall|x: int|
                0 <= x < i && known(resources, (#[trigger] all[x]).resource_name@) ==> has_row(
                    listed@,
                    all[x].resource_name@,
                ),
        decreases all.len() - i,
    {
        let row: &RevenueBreakdown = &all[i];
        assert(row_matches(*row, daily, resources));
        if row.capacity_kw.is_some() {
            let ghost before = listed@;
            listed.push(copy_row(row));
            proof {
                assert forall|a: int, b: int|
                    0 <= a < listed.len() && 0 <= b < listed.len() && a != b implies (
                #[trigger] listed[a]).resource_name@ != (#[trigger] listed[b]).resource_name@ by {
                    if a < before.len() && b < before.len() {
                        assert(listed[a] == before[a] && listed[b] == before[b]);
                    } else {
                        let old = if a < before.len() {
                            a
                        } else {
                            b
                        };
                        assert(listed[old] == before[old]);
                        let x = choose|x: int| 0 <= x < i && all[x] == before[old];
                        assert(all[x].resource_name@ != all[i as int].resource_name@);
                    }
                }
                assert forall|m: int| 0 <= m < listed.len() implies exists|x: int|
                    0 <= x < i + 1 && all[x] == #[trigger] listed[m] by {
                    if m < before.len() {
                        assert(listed[m] == before[m]);
                        let x = choose|x: int| 0 <= x < i && all[x] == before[m];
                        assert(all[x] == listed[m]);
                    } else {
                        assert(all[i as int] == listed[m]);
                    }
                }
                assert forall|m: int| 0 <= m < listed.len() implies known(
                    resources,
                    (#[trigger] listed[m]).resource_name@,
                ) by {
                    if m < before.len() {
                        assert(listed[m] == before[m]);
                    }
                }
                assert forall|x: int|
                    0 <= x < i + 1 && known(
                        resources,
                        (#[trigger] all[x]).resource_name@,
                    ) implies has_row(listed@, all[x].resource_name@) by {
                    if x < i {
                        assert(has_row(before, all[x].resource_name@));
                        let m = choose|m: int|
                            0 <= m < before.len() && (#[trigger] before[m]).resource_name@
                                == all[x].resource_name@;
                        assert(listed[m] == before[m]);
                    } else {
                        assert(listed[listed.len() - 1].resource_name@ == all[x].resource_name@);
                    }
                }
            }
        }
        i = i + 1;
    }
    proof {
        assert forall|m: int| 0 <= m < listed.len() implies row_matches(
            #[trigger] listed[m],
            daily,
            resources,
        ) && has_day(daily, listed[m].resource_name@) && all@.contains(listed[m]) by {
            let x = choose|x: int| 0 <= x < all.len() && all[x] == listed[m];
            assert(row_matches(all[x], daily, resources));
            assert(has_day(daily, all[x].resource_name@));
        }
        assert forall|d: int|
            0 <= d < daily.len() && known(
                resources,
                (#[trigger] daily[d]).resource_name@,
            ) implies has_row(listed@, daily[d].resource_name@) by {
            assert(has_row(all@, daily[d].resource_name@));
            let x = choose|x: int|
                0 <= x < all.len() && (#[trigger] all[x]).resource_name@ == daily[d].resource_name@;
            assert(has_row(listed@, all[x].resource_name@));
        }
    }
    listed
}

/// Revenue per kW of the resources in the list, scaled to a year, the
/// largest first.
pub fn leaderboard(daily: &Vec<DailyRevenue>, resources: &Vec<BessResource>) -> (rows: Vec<
    RevenueBreakdown,
>)
    requires
        ledger_magnitude(daily_entries(daily@)) <= MAX_SCALABLE,
    ensures
        is_leaderboard(rows@, daily@, resources@),
{
    let all: Vec<RevenueBreakdown> = resource_rows(daily, resources);
    let listed: Vec<RevenueBreakdown> = listed_rows(&all, Ghost(daily@), Ghost(resources@));
    let mut keys: Vec<i128> = Vec::new();
    let mut i: usize = 0;
    while i < listed.len()
        invariant
            i <= listed.len(),
            keys.len() == i,
            forall|m: int|
                0 <= m < listed.len() ==> -365 * MAX_SCALABLE <= (
                #[trigger] listed[m]).revenue_per_kw <= 365 * MAX_SCALABLE,
            forall|m: int| 0 <= m < i ==> #[trigger] keys[m] == -listed[m].revenue_per_kw,
        decreases listed.len() - i,
    {
        keys.push(-listed[i].revenue_per_kw);
        i = i + 1;
    }
    let (rows, Ghost(ord)) = arrange_rows(&listed, &keys);
    proof {
        let ks = keys@.map_values(|k: i128| k as int);
        lemma_placed_cover(rows@, listed@, ks, ord, daily@, resources@, true);
        assert forall|a: int, b: int| 0 <= a < b < rows.len() implies (
        #[trigger] rows[a]).revenue_per_kw >= (#[trigger] rows[b]).revenue_per_kw by {
            let x = ord[a] as int;
            let y = ord[b] as int;
            assert(0 <= ord[a] < listed.len());
            assert(0 <= ord[b] < listed.len());
            assert(ks[x] <= ks[y]);
            assert(keys[x] == -listed[x].revenue_per_kw);
            assert(keys[y] == -listed[y].revenue_per_kw);
            assert(rows[a] == listed[x] && rows[b] == listed[y]);
        }
    }
    rows
}

proof fn lemma_per_kw_bound(total_annual: int, capacity_kw: Option<u32>)
    requires
        -365 * MAX_SCALABLE <= total_annual <= 365 * MAX_SCALABLE,
    ensures
        -365 * MAX_SCALABLE <= per_kw(total_annual, capacity_kw) <= 365 * MAX_SCALABLE,
{
    match capacity_kw {
        Some(c) => {
            if c > 0 {
                assert(c * (-365 * MAX_SCALABLE) <= total_annual <= c * (365 * MAX_SCALABLE))
                    by (nonlinear_arith)
                    requires
                        c >= 1,
                        -365 * MAX_SCALABLE <= total_annual <= 365 * MAX_SCALABLE,
                ;
                lemma_mean_in_range(
                    total_annual,
                    c as int,
                    -365 * MAX_SCALABLE,
                    365 * MAX_SCALABLE,
                );
            }
        },
        None => {},
    }
}

} // verus!
