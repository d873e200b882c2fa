use bess_economics::ledger::group_entries;
use bess_economics::ledger::sort_entries;
use bess_economics::ledger::Entry;
use bess_economics::ledger::RevenueStreams;
use bess_economics::revenue::roll_up;

fn entry(name: &str, period: i64, rt: i128, reg_up: i128, count: u64) -> Entry {
    let mut streams = RevenueStreams::zero();
    streams.rt_energy_revenue = rt;
    streams.reg_up_revenue = reg_up;
    Entry { resource_name: name.to_string(), period, streams, count }
}

fn keys(entries: &[Entry]) -> Vec<(String, i64, i128, i128, u64)> {
    entries
        .iter()
        .map(|e| {
            (
                e.resource_name.clone(),
                e.period,
                e.streams.rt_energy_revenue,
                e.streams.reg_up_revenue,
                e.count,
            )
        })
        .collect()
}

#[test]
fn streams_add_stream_by_stream() {
    let a = RevenueStreams::single(0, -5);
    let b = RevenueStreams::single(7, 9);
    let mut c = a.plus(&b).plus(&RevenueStreams::single(0, 2));
    assert_eq!(c.dam_charge_cost, -3);
    assert_eq!(c.non_spin_revenue, 9);
    assert_eq!(c.total_revenue(), 6);
    assert_eq!(c.energy_revenue(), -3);
    assert_eq!(c.ancillary_revenue(), 9);
    c.dam_discharge_revenue = 10;
    assert_eq!(c.dam_energy_revenue(), 7);
    for k in 0..8 {
        assert_eq!(RevenueStreams::single(k, 4).total_revenue(), 4);
    }
    assert_eq!(RevenueStreams::zero().total_revenue(), 0);
}

#[test]
fn grouping_sums_by_resource_and_period() {
    let entries = vec![
        entry("B", 2, 10, 0, 1),
        entry("A", 2, 1, 1, 1),
        entry("B", 2, -4, 5, 3),
        entry("B", 1, 7, 0, 1),
        entry("A", 2, 1, 1, 1),
    ];
    let grouped = group_entries(&entries);
    let mut got = keys(&grouped);
    got.sort();
    assert_eq!(
        got,
        vec![
            ("A".to_string(), 2, 2, 2, 2),
            ("B".to_string(), 1, 7, 0, 1),
            ("B".to_string(), 2, 6, 5, 4)
        ]
    );
    let place = |name: &str, period: i64| {
        grouped.iter().position(|e| e.resource_name == name && e.period == period)
    };
    let at = place("B", 1).unwrap();
    assert_eq!(grouped[at].streams.rt_energy_revenue, 7);
    assert_eq!(place("B", 3), None);
    assert_eq!(place("C", 1), None);
    assert!(group_entries(&Vec::new()).is_empty());
}

#[test]
fn sorting_orders_by_name_then_period() {
    let entries = vec![
        entry("b", 1, 1, 0, 1),
        entry("a", 5, 2, 0, 1),
        entry("a", -5, 3, 0, 1),
        entry("B", 9, 4, 0, 1),
        entry("ab", 0, 5, 0, 1),
        entry("", 0, 6, 0, 1),
    ];
    let sorted = sort_entries(&entries);
    let order: Vec<i128> = sorted.iter().map(|e| e.streams.rt_energy_revenue).collect();
    assert_eq!(order, vec![6, 4, 3, 2, 5, 1]);
}

#[test]
fn rollup_does_not_depend_on_the_order_of_the_batches() {
    let first = vec![entry("A", 1, 5, 0, 1), entry("B", 1, 7, 0, 1), entry("A", 2, 1, 0, 1)];
    let second = vec![entry("A", 1, -2, 3, 1), entry("C", 0, 9, 0, 1)];
    let mut one: Vec<Entry> = Vec::new();
    let mut other: Vec<Entry> = Vec::new();
    for e in first.iter().chain(second.iter()) {
        one.push(entry(&e.resource_name, e.period, e.streams.rt_energy_revenue, e.streams.reg_up_revenue, e.count));
    }
    for e in second.iter().chain(first.iter()) {
        other.push(entry(&e.resource_name, e.period, e.streams.rt_energy_revenue, e.streams.reg_up_revenue, e.count));
    }
    let a = roll_up(&one);
    let b = roll_up(&other);
    assert_eq!(keys(&a), keys(&b));
    assert_eq!(
        keys(&a),
        vec![
            ("A".to_string(), 1, 3, 3, 2),
            ("A".to_string(), 2, 1, 0, 1),
            ("B".to_string(), 1, 7, 0, 1),
            ("C".to_string(), 0, 9, 0, 1)
        ]
    );
}

#[test]
fn totals_are_given_only_where_the_streams_can_be_summed() {
    let mut s = RevenueStreams::zero();
    assert!(s.is_summable());
    assert_eq!(s.checked_total(), Some(0));
    assert_eq!(s.checked_magnitude(), Some(0));
    s.dam_charge_cost = -7;
    s.rt_energy_revenue = 10;
    s.ecrs_revenue = 2;
    assert_eq!(s.checked_magnitude(), Some(19));
    assert_eq!(s.checked_total(), Some(5));
    assert_eq!(s.checked_energy(), Some(3));
    assert_eq!(s.checked_dam_energy(), Some(-7));
    s.rt_energy_revenue = i128::MAX - 9;
    assert_eq!(s.checked_magnitude(), Some(i128::MAX as u128));
    assert_eq!(s.checked_total(), Some(i128::MAX - 14));
    s.rt_energy_revenue = i128::MAX - 8;
    assert!(!s.is_summable());
    assert_eq!(s.checked_total(), None);
    assert_eq!(s.checked_energy(), None);
    assert_eq!(s.checked_dam_energy(), None);
    let mut least = RevenueStreams::zero();
    least.non_spin_revenue = i128::MIN;
    assert_eq!(least.checked_magnitude(), None);
    least.non_spin_revenue = i128::MIN + 1;
    assert_eq!(least.checked_total(), Some(i128::MIN + 1));
    let mut both = RevenueStreams::zero();
    both.reg_up_revenue = i128::MAX;
    both.reg_down_revenue = -i128::MAX;
    assert_eq!(both.checked_total(), None);
}
