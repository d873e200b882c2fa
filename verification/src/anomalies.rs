//! Advisory signals drawn from the daily revenue of a resource: a swing in
//! energy revenue too large for the battery, and ancillary revenue that
//! stops while total revenue halves.

use vstd::hash_map::StringHashMap;
use vstd::prelude::*;
use crate::ledger::RevenueStreams;
use crate::ledger::StreamTotals;
use crate::ledger::abs;
use crate::ledger::ledger_magnitude;
use crate::ledger::lemma_stream_sizes;
use crate::ledger::lemma_sum_by_two;
use crate::ledger::magnitude_term;
use crate::revenue::BessResource;
use crate::revenue::DailyRevenue;
use crate::revenue::daily_entries;
use crate::revenue::index_resources;
use crate::revenue::look_up_resource;
use crate::revenue::places_resources;
use crate::revenue::known;
use crate::revenue::resource_named;

verus! {

/// Price at which a day of full output is valued when judging a swing:
/// 100 $/MWh.
pub const SWING_PRICE: i128 = 100_000;

/// The kind of an operational issue.
#[derive(Debug, Clone, Copy, PartialEq, Eq, Structural)]
pub enum IssueKind {
    SocViolation,
    AsFailure,
}

/// A signal that something may have gone wrong; a hint, not proof of a fault.
#[derive(Debug)]
pub struct OperationalIssue {
    pub resource_id: String,
    /// The later of the two days compared, days since 1970-01-01.
    pub date: i32,
    pub kind: IssueKind,
}

/// `j` is the next record after `i` of the same resource.
pub open spec fn is_next_of(daily: Seq<DailyRevenue>, i: int, j: int) -> bool {
    &&& 0 <= i < j < daily.len()
    &&& daily[j].resource_name@ == daily[i].resource_name@
    &&& forall|m: int|
        i < m < j ==> (#[trigger] daily[m]).resource_name@ != daily[i].resource_name@
}

/// Twice what a battery of this power earns in a day at the swing price.
pub open spec fn swing_limit(capacity_kw: int) -> int {
    2 * (capacity_kw * 24 * SWING_PRICE)
}

/// Energy revenue moved between the two days by more than the limit.
pub open spec fn soc_violation(before: StreamTotals, after: StreamTotals, capacity_kw: int) -> bool {
    abs(after.energy() - before.energy()) > swing_limit(capacity_kw)
}

/// Some ancillary stream is not zero.
pub open spec fn has_ancillary(t: StreamTotals) -> bool {
    t.reg_up_revenue != 0 || t.reg_down_revenue != 0 || t.rrs_revenue != 0 || t.ecrs_revenue != 0
        || t.non_spin_revenue != 0
}

/// The first day had ancillary revenue, the second has none in any stream
/// and less than half the first day's total revenue.
pub open spec fn as_failure(before: StreamTotals, after: StreamTotals) -> bool {
    has_ancillary(before) && !has_ancillary(after) && 2 * after.total() < before.total()
}

/// The issues that two consecutive days of a resource raise: the swing
/// first. The swing is judged only for a resource in the list.
pub open spec fn issues_of_pair(
    before: DailyRevenue,
    after: DailyRevenue,
    resources: Seq<BessResource>,
) -> Seq<OperationalIssue> {
    let swing = if known(resources, before.resource_name@) && soc_violation(
        before.streams@,
        after.streams@,
        resource_named(resources, before.resource_name@).capacity_kw as int,
    ) {
        seq![
            OperationalIssue {
                resource_id: after.resource_name,
                date: after.date,
                kind: IssueKind::SocViolation,
            },
        ]
    } else {
        Seq::empty()
    };
    let failure = if as_failure(before.streams@, after.streams@) {
        seq![
            OperationalIssue {
                resource_id: after.resource_name,
                date: after.date,
                kind: IssueKind::AsFailure,
            },
        ]
    } else {
        Seq::empty()
    };
    swing + failure
}

/// The issues raised by record `i` and the next record of its resource.
pub open spec fn issues_at(daily: Seq<DailyRevenue>, resources: Seq<BessResource>, i: int) -> Seq<
    OperationalIssue,
> {
    if exists|j: int| is_next_of(daily, i, j) {
        issues_of_pair(daily[i], daily[choose|j: int| is_next_of(daily, i, j)], resources)
    } else {
        Seq::empty()
    }
}

/// The issues raised by the first `n` records, each with its successor.
pub open spec fn issues_upto(daily: Seq<DailyRevenue>, resources: Seq<BessResource>, n: int) -> Seq<
    OperationalIssue,
>
    decreases n,
{
    if n <= 0 {
        Seq::empty()
    } else {
        issues_upto(daily, resources, n - 1) + issues_at(daily, resources, n - 1)
    }
}

/// Place of the next record of the resource of record `i`.
fn find_next(daily: &Vec<DailyRevenue>, i: usize) -> (found: Option<usize>)
    requires
        i < daily.len(),
    ensures
        match found {
            Some(j) => is_next_of(daily@, i as int, j as int) && j == (choose|c: int|
                is_next_of(daily@, i as int, c)),
            None => !exists|c: int| is_next_of(daily@, i as int, c),
        },
{
    let mut j: usize = i + 1;
    while j < daily.len()
        invariant
            i < j <= daily.len(),
            forall|m: int|
                i < m < j ==> (#[trigger] daily[m]).resource_name@ != daily[i as int].resource_name@,
        decreases daily.len() - j,
    {
        if daily[j].resource_name == daily[i].resource_name {
            proof {
                assert(is_next_of(daily@, i as int, j as int));
                let c = choose|c: int| is_next_of(daily@, i as int, c);
                if c < j {
                    assert(daily[c].resource_name@ != daily[i as int].resource_name@);
                }
                if c > j {
                    assert(daily[j as int].resource_name@ != daily[i as int].resource_name@);
                }
            }
            return Some(j);
        }
        j = j + 1;
    }
    assert forall|c: int| !is_next_of(daily@, i as int, c) by {
        if i < c < daily.len() {
            assert(daily[c].resource_name@ != daily[i as int].resource_name@);
        }
    }
    None
}

/// Whether some ancillary stream is not zero.
fn any_ancillary(streams: &RevenueStreams) -> (r: bool)
    ensures
        r == has_ancillary(streams@),
{
    streams.reg_up_revenue != 0 || streams.reg_down_revenue != 0 || streams.rrs_revenue != 0
        || streams.ecrs_revenue != 0 || streams.non_spin_revenue != 0
}

/// Compares each day of each resource with the resource's next day and
/// reports what stands out. The records are taken in the order given; a
/// resource's next day is its next record.
pub fn detect_issues(daily: &Vec<DailyRevenue>, resources: &Vec<BessResource>) -> (issues: Vec<
    OperationalIssue,
>)
    requires
        ledger_magnitude(daily_entries(daily@)) <= i128::MAX,
    ensures
        issues@ == issues_upto(daily@, resources@, daily.len() as int),
{
    let ghost entries = daily_entries(daily@);
    let places: StringHashMap<usize> = index_resources(resources);
    let mut issues: Vec<OperationalIssue> = Vec::new();
    let mut i: usize = 0;
    while i < daily.len()
        invariant
            i <= daily.len(),
            places_resources(places@, resources@),
            entries == daily_entries(daily@),
            ledger_magnitude(entries) <= i128::MAX,
            issues@ == issues_upto(daily@, resources@, i as int),
        decreases daily.len() - i,
    {
        let ghost so_far = issues@;
        match find_next(daily, i) {
            Some(j) => {
                let before: &DailyRevenue = &daily[i];
                let after: &DailyRevenue = &daily[j];
                proof {
                    let f = magnitude_term();
                    assert forall|m: int| 0 <= m < entries.len() implies f(#[trigger] entries[m])
                        >= 0 by {
                        lemma_stream_sizes(entries[m].streams@);
                    }
                    lemma_sum_by_two(entries, i as int, j as int, f);
                    lemma_stream_sizes(before.streams@);
                    lemma_stream_sizes(after.streams@);
                    assert(f(entries[i as int]) == before.streams@.magnitude());
                    assert(f(entries[j as int]) == after.streams@.magnitude());
                    crate::ledger::lemma_abs(before.streams@.energy());
                    crate::ledger::lemma_abs(after.streams@.energy());
                    crate::ledger::lemma_abs(before.streams@.total());
                    crate::ledger::lemma_abs(after.streams@.total());
                    crate::ledger::lemma_abs(after.streams@.energy() - before.streams@.energy());
                }
                let mut swing: bool = false;
                match look_up_resource(&places, resources, &before.resource_name) {
                    Some(at) => {
                        let capacity: i128 = resources[at].capacity_kw as i128;
                        let limit: i128 = 2 * (capacity * 24 * SWING_PRICE);
                        let moved: i128 = after.streams.energy_revenue()
                            - before.streams.energy_revenue();
                        let size: i128 = if moved >= 0 {
                            moved
                        } else {
                            -moved
                        };
                        swing = size > limit;
                    },
                    None => {},
                }
                if swing {
                    issues.push(
                        OperationalIssue {
                            resource_id: after.resource_name.clone(),
                            date: after.date,
                            kind: IssueKind::SocViolation,
                        },
                    );
                }
                let first_total: i128 = before.streams.total_revenue();
                let second_total: i128 = after.streams.total_revenue();
                let failure: bool = any_ancillary(&before.streams) && !any_ancillary(&after.streams)
                    && second_total < first_total - second_total;
                if failure {
                    issues.push(
                        OperationalIssue {
                            resource_id: after.resource_name.clone(),
                            date: after.date,
                            kind: IssueKind::AsFailure,
                        },
                    );
                }
                proof {
                    let pair = issues_of_pair(*before, *after, resources@);
                    assert(issues@ =~= so_far + pair);
                }
            },
            None => {
                assert(issues@ =~= so_far + Seq::<OperationalIssue>::empty());
            },
        }
        i = i + 1;
    }
    issues
}

} // verus!
