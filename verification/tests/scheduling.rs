use std::collections::HashMap;
use std::sync::Arc;
use std::time::Duration;

use cs_ping::host::Host;
use cs_ping::ping::{schedule_size, sort_ascending, sort_by_key_desc, HostStats, JobIter, JobStep, PingOutcome, PingResults};
use rand::SeedableRng;
use rand_xoshiro::Xoshiro256PlusPlus;

fn host(location: &str) -> Arc<Host> {
    Arc::new(Host { location: location.to_string(), public_key: format!("key-{location}") })
}

fn schedule(ips: Vec<Vec<u32>>, pings_per_ip: usize, ping_retries: usize, seed: u64) -> JobIter {
    let hosts = ips
        .into_iter()
        .enumerate()
        .map(|(i, ips)| (host(&format!("h{i}")), ips))
        .collect::<Vec<_>>();
    JobIter::with_rng(hosts, pings_per_ip, ping_retries, Xoshiro256PlusPlus::seed_from_u64(seed))
}

#[test]
fn every_ip_is_pinged_pings_per_ip_times() {
    for seed in 0..20 {
        let mut it = schedule(vec![vec![1, 2], vec![3], vec![], vec![4, 5, 6]], 3, 2, seed);
        assert_eq!(it.pings_left(), 18);
        assert_eq!(it.size_hint(), (0, Some(18)));
        let mut counts: HashMap<(usize, u32), usize> = HashMap::new();
        let mut handed = 0;
        loop {
            let before = it.pings_left();
            let (job, skipped) = it.next();
            assert_eq!(skipped, 0);
            match job {
                Some(job) => {
                    handed += 1;
                    assert_eq!(it.pings_left(), before - 1);
                    *counts.entry((job.host_idx, job.ip)).or_default() += 1;
                    assert_eq!(job.host.location, format!("h{}", job.host_idx));
                }
                None => break,
            }
        }
        assert_eq!(handed, 18);
        assert_eq!(counts.len(), 6);
        assert!(counts.values().all(|&c| c == 3));
        assert_eq!(it.pings_left(), 0);
        assert_eq!(it.next().0.is_none(), true);
        assert!(it.failed_hosts().is_empty());
    }
}

#[test]
fn a_failed_host_is_dropped_and_its_pings_skipped() {
    let mut it = schedule(vec![vec![10, 11], vec![20]], 2, 1, 7);
    assert_eq!(it.pings_left_for_host(0), 4);
    assert_eq!(it.pings_left_for_host(1), 2);
    assert!(it.can_retry(0));
    assert_eq!(it.record_failure(0), false);
    assert!(it.can_retry(0));
    // the second failure exceeds the one retry allowed
    assert_eq!(it.record_failure(0), true);
    assert!(!it.can_retry(0));
    assert_eq!(it.record_failure(0), false);
    let failed = it.failed_hosts();
    assert_eq!(failed.len(), 1);
    assert_eq!(failed[0].location, "h0");

    let mut jobs = 0;
    let mut skipped_total = 0;
    loop {
        let (job, skipped) = it.next();
        skipped_total += skipped;
        match job {
            Some(job) => {
                assert_eq!(job.host_idx, 1);
                assert_eq!(job.ip, 20);
                jobs += 1;
            }
            None => break,
        }
    }
    assert_eq!(jobs, 2);
    assert_eq!(skipped_total, 4);
    assert_eq!(it.pings_left(), 0);
}

#[test]
fn sequence_numbers_advance_and_wrap() {
    let mut it = schedule(vec![vec![1]], 1, 0, 1);
    assert_eq!(it.next_sequence(0, 0), 0);
    assert_eq!(it.next_sequence(0, 0), 1);
    for _ in 2..65536 {
        it.next_sequence(0, 0);
    }
    assert_eq!(it.next_sequence(0, 0), 0);
    assert_eq!(it.num_hosts(), 1);
    assert_eq!(it.host(0).location, "h0");
}

#[test]
fn results_are_collected_per_host_and_ip() {
    let a = host("a");
    let a_again = Arc::new(Host { location: "a".to_string(), public_key: "key-a".to_string() });
    let b = host("b");
    let mut results = PingResults::new();
    results.record(&a, 1, Duration::from_millis(10));
    results.record(&b, 7, Duration::from_millis(30));
    results.record(&a_again, 1, Duration::from_millis(12));
    results.record(&a, 2, Duration::from_millis(14));
    let stats = results.into_host_stats(&vec![]);
    assert_eq!(stats.len(), 2);
    assert_eq!(stats[0].host.location, "a");
    assert_eq!(stats[0].durations.get(&1).unwrap(), &vec![Duration::from_millis(10), Duration::from_millis(12)]);
    assert_eq!(stats[0].durations.get(&2).unwrap(), &vec![Duration::from_millis(14)]);
    assert_eq!(stats[1].host.location, "b");
    assert_eq!(stats[0].sorted_ips(), vec![1, 2]);
}

#[test]
fn results_of_failed_hosts_are_dropped() {
    let a = host("a");
    let b = host("b");
    let mut results = PingResults::new();
    results.record(&a, 1, Duration::from_millis(10));
    results.record(&b, 1, Duration::from_millis(10));
    let stats = results.into_host_stats(&vec![host("a")]);
    assert_eq!(stats.len(), 1);
    assert_eq!(stats[0].host.location, "b");
}

#[test]
fn sorting_by_key_puts_the_largest_first() {
    let sorted = sort_by_key_desc(vec![(3u64, "c"), (10, "x"), (3, "d"), (0, "z"), (7, "y")]);
    let keys: Vec<u64> = sorted.iter().map(|p| p.0).collect();
    assert_eq!(keys, vec![10, 7, 3, 3, 0]);
    assert_eq!(sorted[0].1, "x");
    assert_eq!(sorted[4].1, "z");
    assert!(sort_by_key_desc::<u8>(vec![]).is_empty());
}

#[test]
fn ips_are_sorted_ascending() {
    assert_eq!(sort_ascending(vec![5, 1, 4, 1, 0xffff_ffff, 0]), vec![0, 1, 1, 4, 5, 0xffff_ffff]);
    let mut durations = HashMap::new();
    for ip in [0x0a000003u32, 0x01010101, 0xc0a80001] {
        durations.insert(ip, vec![Duration::from_millis(1)]);
    }
    let stats = HostStats { host: host("h"), durations };
    assert_eq!(stats.sorted_ips(), vec![0x01010101, 0x0a000003, 0xc0a80001]);
}

#[test]
fn a_job_retries_until_the_host_fails() {
    let mut it = schedule(vec![vec![7]], 1, 1, 3);
    let job = it.next().0.unwrap();
    // first ping
    assert!(matches!(it.job_step(&job, None), (JobStep::Ping(0), false)));
    // one failure is allowed: ping again with the next sequence number
    assert!(matches!(it.job_step(&job, Some(PingOutcome::Failed)), (JobStep::Ping(1), false)));
    // the second failure exceeds it: the job ends without a reply
    assert!(matches!(it.job_step(&job, Some(PingOutcome::Failed)), (JobStep::Done(None), true)));
    assert_eq!(it.retries(0), 2);
    assert!(!it.can_retry(0));
    assert_eq!(it.failed_hosts().len(), 1);
}

#[test]
fn a_job_ends_with_the_reply() {
    let mut it = schedule(vec![vec![7]], 2, 0, 3);
    let job = it.next().0.unwrap();
    assert!(matches!(it.job_step(&job, None), (JobStep::Ping(0), false)));
    let d = Duration::from_micros(1500);
    match it.job_step(&job, Some(PingOutcome::Reply(d))) {
        (JobStep::Done(Some(got)), false) => assert_eq!(got, d),
        _ => panic!("the reply must end the job"),
    }
    assert_eq!(it.retries(0), 0);
    assert_eq!(it.next_sequence(0, 0), 1);
    assert_eq!(it.pings_left(), 1);
}

#[test]
fn schedule_size_counts_every_ping_or_reports_overflow() {
    let hosts = vec![(host("a"), vec![1, 2]), (host("b"), vec![]), (host("c"), vec![3, 4, 5])];
    assert_eq!(schedule_size(&hosts, 4), Some(20));
    assert_eq!(schedule_size(&hosts, 0), Some(0));
    assert_eq!(schedule_size(&vec![], 7), Some(0));
    assert_eq!(schedule_size(&hosts, usize::MAX), None);
    assert_eq!(schedule_size(&hosts, usize::MAX / 5), Some(usize::MAX / 5 * 5));
    assert_eq!(schedule_size(&hosts, usize::MAX / 5 + 1), None);
}

#[test]
fn a_schedule_seeded_by_the_system_owes_every_ping() {
    let hosts = vec![(host("a"), vec![1, 2]), (host("b"), vec![3])];
    let mut it = JobIter::new(hosts, 2, 0).unwrap();
    assert_eq!(it.pings_left(), 6);
    let mut handed = 0;
    while let (Some(_), 0) = it.next() {
        handed += 1;
    }
    assert_eq!(handed, 6);
}

#[test]
fn recorded_results_belong_to_the_pings_handed_out() {
    let ips = vec![vec![10, 11], vec![20]];
    let mut it = schedule(ips.clone(), 3, 0, 11);
    let mut results = PingResults::new();
    let mut k = 0u64;
    while let (Some(job), _) = it.next() {
        results.record(&job.host, job.ip, Duration::from_millis(k));
        k += 1;
    }
    let stats = results.into_host_stats(&vec![]);
    assert_eq!(stats.len(), 2);
    for s in &stats {
        let h: usize = s.host.location[1..].parse().unwrap();
        assert!(!s.durations.is_empty());
        for (ip, ds) in &s.durations {
            assert!(ips[h].contains(ip));
            assert!(!ds.is_empty() && ds.len() <= 3);
        }
    }
}
