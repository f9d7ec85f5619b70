use latency_atlas::catalog::obtain_country_code_from_filepath;
use latency_atlas::geo::{GeoCache, GeoRecord, LookupError};
use latency_atlas::groups::{CountryGroups, Measurement};
use latency_atlas::probe::{ProbeOutcome, ProbeSession};
use latency_atlas::report::{generate_csv, render_report};
use latency_atlas::stats::{aggregate, group_statistics, order_by_min, sort_rtts, CountryStatistics};

const MS: u64 = 1_000_000;

fn measurement(name: &str, address: &str, claimed: &str, rtt_ns: u64) -> Measurement {
    Measurement {
        name: name.to_string(),
        address: address.to_string(),
        claimed: claimed.to_string(),
        rtt_ns,
    }
}

fn add(groups: &mut CountryGroups, country: &str, address: &str, rtt_ns: u64) {
    groups.add(country.to_string(), measurement("", address, country, rtt_ns));
}

fn total(groups: &CountryGroups) -> usize {
    groups.groups().iter().map(|g| g.measurements.len()).sum()
}

fn keys(groups: &CountryGroups) -> Vec<String> {
    groups.groups().iter().map(|g| g.country.clone()).collect()
}

fn group<'a>(groups: &'a CountryGroups, country: &str) -> Option<&'a Vec<Measurement>> {
    groups
        .groups()
        .iter()
        .find(|g| g.country == country)
        .map(|g| &g.measurements)
}

fn stat(country: &str, min_ns: u64) -> CountryStatistics {
    CountryStatistics {
        country: country.to_string(),
        min_ns,
        median_ns: min_ns,
        average_ns: min_ns,
        max_ns: min_ns,
    }
}

#[test]
fn mislabeled_endpoint_moves_to_new_group() {
    let mut groups = CountryGroups::new();
    groups.add("DE".to_string(), measurement("", "203.0.113.5", "DE", 12 * MS));
    let resolved = vec![vec![Some("PL".to_string())]];
    let out = groups.reconcile(&resolved);
    assert_eq!(group(&out, "DE").unwrap().len(), 0);
    let pl = group(&out, "PL").unwrap();
    assert_eq!(pl.len(), 1);
    assert_eq!(pl[0].address, "203.0.113.5");
    assert_eq!(pl[0].name, "");
    assert_eq!(pl[0].claimed, "DE");
    assert_eq!(keys(&out), vec!["DE".to_string(), "PL".to_string()]);
}

#[test]
fn mislabeled_endpoint_joins_existing_group() {
    let mut groups = CountryGroups::new();
    add(&mut groups, "DE", "203.0.113.5", 12 * MS);
    add(&mut groups, "DE", "203.0.113.6", 13 * MS);
    add(&mut groups, "PL", "198.51.100.1", 20 * MS);
    let resolved = vec![
        vec![Some("PL".to_string()), Some("DE".to_string())],
        vec![Some("PL".to_string())],
    ];
    let out = groups.reconcile(&resolved);
    let de = group(&out, "DE").unwrap();
    assert_eq!(de.len(), 1);
    assert_eq!(de[0].address, "203.0.113.6");
    let pl = group(&out, "PL").unwrap();
    let addrs: Vec<&str> = pl.iter().map(|m| m.address.as_str()).collect();
    assert_eq!(addrs, vec!["198.51.100.1", "203.0.113.5"]);
}

#[test]
fn reconciliation_keeps_count_with_failed_lookups() {
    let mut groups = CountryGroups::new();
    add(&mut groups, "DE", "192.0.2.1", 10 * MS);
    add(&mut groups, "DE", "192.0.2.2", 11 * MS);
    add(&mut groups, "FR", "192.0.2.3", 12 * MS);
    add(&mut groups, "FR", "192.0.2.4", 13 * MS);
    let resolved = vec![
        vec![None, Some("FR".to_string())],
        vec![Some("US".to_string())],
    ];
    let out = groups.reconcile(&resolved);
    assert_eq!(total(&out), 4);
    assert_eq!(group(&out, "DE").unwrap()[0].address, "192.0.2.1");
    assert_eq!(group(&out, "FR").unwrap().len(), 2);
    assert_eq!(group(&out, "US").unwrap()[0].address, "192.0.2.3");
    assert_eq!(group(&out, "FR").unwrap()[1].address, "192.0.2.2");
}

#[test]
fn reconciling_settled_groups_changes_nothing() {
    let mut groups = CountryGroups::new();
    add(&mut groups, "DE", "192.0.2.1", 10 * MS);
    add(&mut groups, "PL", "192.0.2.2", 11 * MS);
    let resolved = vec![vec![Some("DE".to_string())], vec![Some("PL".to_string())]];
    let once = groups.reconcile(&resolved);
    let twice = once.reconcile(&resolved);
    assert_eq!(keys(&twice), vec!["DE".to_string(), "PL".to_string()]);
    assert_eq!(group(&twice, "DE").unwrap()[0].address, "192.0.2.1");
    assert_eq!(group(&twice, "PL").unwrap()[0].address, "192.0.2.2");
    assert_eq!(total(&twice), 2);
}

#[test]
fn probing_stops_after_first_timeout() {
    let mut s = ProbeSession::new(10, 500 * MS);
    let replies = [40 * MS, 35 * MS, 50 * MS];
    for (i, r) in replies.iter().enumerate() {
        assert_eq!(s.next_probe(), Some(i as u16));
        s.record(ProbeOutcome::Reply(*r));
    }
    assert_eq!(s.next_probe(), Some(3));
    s.record(ProbeOutcome::TimedOut);
    assert_eq!(s.next_probe(), None);
    s.record(ProbeOutcome::Reply(1 * MS));
    assert_eq!(s.result(), Some(35 * MS));
}

#[test]
fn probing_ignores_failed_probes_and_ends_at_count() {
    let mut s = ProbeSession::new(3, 500 * MS);
    s.record(ProbeOutcome::Failed);
    s.record(ProbeOutcome::Reply(70 * MS));
    assert_eq!(s.next_probe(), Some(2));
    s.record(ProbeOutcome::Failed);
    assert_eq!(s.next_probe(), None);
    assert_eq!(s.result(), Some(70 * MS));
}

#[test]
fn unreachable_or_slow_endpoint_gives_no_result() {
    let mut s = ProbeSession::new(10, 500 * MS);
    s.record(ProbeOutcome::TimedOut);
    assert_eq!(s.result(), None);
    let mut slow = ProbeSession::new(2, 500 * MS);
    slow.record(ProbeOutcome::Reply(500 * MS));
    slow.record(ProbeOutcome::Reply(600 * MS));
    assert_eq!(slow.result(), None);
}

#[test]
fn dropped_endpoint_is_not_filed() {
    let mut groups = CountryGroups::new();
    groups.add_probed("Berlin".to_string(), "192.0.2.1".to_string(), "DE".to_string(), None);
    assert_eq!(total(&groups), 0);
    groups.add_probed("Berlin".to_string(), "192.0.2.1".to_string(), "DE".to_string(), Some(5 * MS));
    assert_eq!(group(&groups, "DE").unwrap()[0].name, "Berlin");
}

#[test]
fn statistics_of_four_values() {
    let mut groups = CountryGroups::new();
    for (i, r) in [30u64, 10, 40, 20].iter().enumerate() {
        add(&mut groups, "DE", &format!("192.0.2.{}", i), r * MS);
    }
    let s = group_statistics(&groups.groups()[0]).unwrap();
    assert_eq!(s.country, "DE");
    assert_eq!(s.min_ns, 10 * MS);
    assert_eq!(s.max_ns, 40 * MS);
    assert_eq!(s.average_ns, 25 * MS);
    assert_eq!(s.median_ns, 25 * MS);
}

#[test]
fn statistics_of_odd_group_and_bounds() {
    let mut groups = CountryGroups::new();
    for (i, r) in [7u64, 1, 100].iter().enumerate() {
        add(&mut groups, "FR", &format!("192.0.2.{}", i), *r);
    }
    let s = group_statistics(&groups.groups()[0]).unwrap();
    assert_eq!((s.min_ns, s.median_ns, s.average_ns, s.max_ns), (1, 7, 36, 100));
    assert!(s.min_ns <= s.median_ns && s.median_ns <= s.max_ns);
    assert!(s.min_ns <= s.average_ns && s.average_ns <= s.max_ns);
}

#[test]
fn largest_times_do_not_overflow() {
    let mut groups = CountryGroups::new();
    add(&mut groups, "JP", "192.0.2.1", u64::MAX);
    add(&mut groups, "JP", "192.0.2.2", u64::MAX);
    let s = group_statistics(&groups.groups()[0]).unwrap();
    assert_eq!((s.min_ns, s.median_ns, s.average_ns, s.max_ns), (u64::MAX, u64::MAX, u64::MAX, u64::MAX));
}

#[test]
fn rtts_sort_ascending() {
    assert_eq!(sort_rtts(&vec![5, 3, 9, 3, 1]), vec![1, 3, 3, 5, 9]);
    assert_eq!(sort_rtts(&vec![]), Vec::<u64>::new());
}

#[test]
fn report_order_keeps_ties_in_order() {
    let v = vec![stat("C", 30), stat("A", 10), stat("B", 10), stat("D", 5), stat("E", 10)];
    let out = order_by_min(&v);
    let names: Vec<&str> = out.iter().map(|c| c.country.as_str()).collect();
    assert_eq!(names, vec!["D", "A", "B", "E", "C"]);
}

#[test]
fn aggregate_skips_empty_groups_and_orders() {
    let mut groups = CountryGroups::new();
    add(&mut groups, "DE", "192.0.2.1", 30 * MS);
    add(&mut groups, "PL", "192.0.2.2", 10 * MS);
    add(&mut groups, "FR", "192.0.2.3", 30 * MS);
    let out = groups.reconcile(&vec![vec![], vec![Some("FR".to_string())], vec![]]);
    let stats = aggregate(&out);
    let names: Vec<&str> = stats.iter().map(|c| c.country.as_str()).collect();
    assert_eq!(names, vec!["FR", "DE"]);
    assert_eq!(stats[0].min_ns, 10 * MS);
    assert_eq!(stats[0].max_ns, 30 * MS);
}

#[test]
fn report_text_has_header_and_rows() {
    let rows = vec![CountryStatistics {
        country: "PL".to_string(),
        min_ns: 12_345_678,
        median_ns: 999_999_999,
        average_ns: 500,
        max_ns: 1_000_000_000,
    }];
    assert_eq!(
        render_report(&rows),
        "Country\tMin RTT\tMedian RTT\tAverage RTT\tMax RTT\nPL\t12,346\t1000,000\t0,001\t1000,000\n"
    );
    assert_eq!(render_report(&vec![]), "Country\tMin RTT\tMedian RTT\tAverage RTT\tMax RTT\n");
}

#[test]
fn csv_of_groups() {
    let mut groups = CountryGroups::new();
    add(&mut groups, "DE", "192.0.2.1", 20 * MS);
    add(&mut groups, "PL", "192.0.2.2", 10 * MS);
    assert_eq!(
        generate_csv(&groups),
        "Country\tMin RTT\tMedian RTT\tAverage RTT\tMax RTT\nPL\t10,000\t10,000\t10,000\t10,000\nDE\t20,000\t20,000\t20,000\t20,000\n"
    );
}

#[test]
fn cache_keeps_successes_only() {
    let mut cache = GeoCache::new();
    let addr = "203.0.113.5".to_string();
    assert!(cache.lookup(&addr).is_none());
    let failed = cache.record(&addr, Err(LookupError { message: "quota".to_string() }));
    assert_eq!(failed.err().unwrap().message, "quota");
    assert!(cache.lookup(&addr).is_none());
    let rec = GeoRecord { country: "PL".to_string(), city: Some("Warsaw".to_string()) };
    let ok = cache.record(&addr, Ok(rec)).ok().unwrap();
    assert_eq!(ok.country, "PL");
    let hit = cache.lookup(&addr).unwrap();
    assert_eq!(hit.country, "PL");
    assert_eq!(hit.city, Some("Warsaw".to_string()));
    let again = cache.record(&addr, Ok(GeoRecord { country: "DE".to_string(), city: None }));
    assert_eq!(again.ok().unwrap().country, "PL");
    assert!(cache.lookup(&"203.0.113.6".to_string()).is_none());
}

#[test]
fn country_code_from_file_name() {
    assert_eq!(obtain_country_code_from_filepath("de.json"), "DE");
    assert_eq!(obtain_country_code_from_filepath("pl.list.json"), "PL");
    assert_eq!(obtain_country_code_from_filepath("us"), "US");
    assert_eq!(obtain_country_code_from_filepath(".json"), "");
}

#[test]
fn blank_names_take_the_city() {
    let mut groups = CountryGroups::new();
    groups.add("DE".to_string(), measurement("  ", "192.0.2.1", "DE", 10 * MS));
    groups.add("DE".to_string(), measurement("Bonn", "192.0.2.2", "DE", 11 * MS));
    groups.add("DE".to_string(), measurement("", "192.0.2.3", "DE", 12 * MS));
    let cities = vec![vec![Some("Berlin".to_string()), Some("Munich".to_string())]];
    let out = groups.fill_names(&cities);
    let names: Vec<&str> = group(&out, "DE").unwrap().iter().map(|m| m.name.as_str()).collect();
    assert_eq!(names, vec!["Berlin", "Bonn", ""]);
}

#[test]
fn name_blankness_and_renaming() {
    let m = measurement(" \t", "192.0.2.1", "DE", 1);
    assert!(m.name_is_blank());
    assert!(!measurement(" x ", "192.0.2.1", "DE", 1).name_is_blank());
    assert_eq!(m.named_by(true, &Some("Kiel".to_string())).name, "Kiel");
    assert_eq!(m.named_by(false, &Some("Kiel".to_string())).name, " \t");
    assert_eq!(m.named_by(true, &None).name, " \t");
}
