use dns_speed::plan::TestPlan;
use dns_speed::summary::{all_refer_within, summarize, ProviderSummary, QuerySample};

const MS: u64 = 1_000_000;

fn plan(domains: &[&str], rounds: u64) -> TestPlan {
    TestPlan {
        warm_up_domain: "example.com".to_string(),
        domains: domains.iter().map(|d| d.to_string()).collect(),
        rounds,
        timeout_ns: 3_000 * MS,
        inter_query_delay_ns: 100 * MS,
        inter_round_delay_ns: 200 * MS,
    }
}

fn stats(s: &ProviderSummary) -> (u64, u64, u64, u64, usize, usize, u64) {
    (
        s.avg_ns,
        s.min_ns,
        s.max_ns,
        s.median_ns,
        s.successful,
        s.attempted,
        s.success_rate_bp,
    )
}

#[test]
fn all_successes_two_rounds_two_domains() {
    let p = plan(&["a.test", "b.test"], 2);
    let samples = vec![
        QuerySample::Latency(10 * MS),
        QuerySample::Latency(20 * MS),
        QuerySample::Latency(30 * MS),
        QuerySample::Latency(40 * MS),
    ];
    let s = summarize("A", &samples, &p);
    assert_eq!(s.provider, "A");
    assert_eq!(s.avg_ns, 25 * MS);
    assert_eq!(s.min_ns, 10 * MS);
    assert_eq!(s.max_ns, 40 * MS);
    assert_eq!(s.median_ns, 20 * MS);
    assert_eq!(s.success_rate_bp, 10_000);
    assert_eq!(s.successful, 4);
    assert_eq!(s.attempted, 4);
    assert!(s.failed_domains.is_empty());
}

#[test]
fn one_unreachable_out_of_four() {
    let p = plan(&["x.test", "y.test"], 2);
    let samples = vec![
        QuerySample::TcpUnreachable(0),
        QuerySample::Latency(5 * MS),
        QuerySample::Latency(15 * MS),
        QuerySample::Latency(25 * MS),
    ];
    let s = summarize("B", &samples, &p);
    assert_eq!(s.success_rate_bp, 7_500);
    assert_eq!(s.failed_domains, vec!["x.test (TCP Failed)".to_string()]);
    assert_eq!(s.min_ns, 5 * MS);
    assert_eq!(s.max_ns, 25 * MS);
    assert_eq!(s.median_ns, 15 * MS);
    assert_eq!(s.avg_ns, 15 * MS);
}

#[test]
fn resolution_errors_are_listed_plainly_in_order() {
    let p = plan(&["a.test", "b.test", "c.test"], 1);
    let samples = vec![
        QuerySample::ResolutionError(2),
        QuerySample::Latency(7),
        QuerySample::TcpUnreachable(1),
    ];
    let s = summarize("C", &samples, &p);
    assert_eq!(
        s.failed_domains,
        vec!["c.test".to_string(), "b.test (TCP Failed)".to_string()]
    );
    assert_eq!(s.successful, 1);
    assert_eq!(s.attempted, 3);
    assert_eq!(s.success_rate_bp, 3_333);
    assert_eq!((s.min_ns, s.median_ns, s.max_ns, s.avg_ns), (7, 7, 7, 7));
}

#[test]
fn nothing_succeeded_gives_timeout_everywhere() {
    let p = plan(&["a.test"], 2);
    let samples = vec![QuerySample::TcpUnreachable(0), QuerySample::ResolutionError(0)];
    let s = summarize("D", &samples, &p);
    assert_eq!(s.success_rate_bp, 0);
    assert_eq!(s.min_ns, p.timeout_ns);
    assert_eq!(s.max_ns, p.timeout_ns);
    assert_eq!(s.median_ns, p.timeout_ns);
    assert_eq!(s.avg_ns, p.timeout_ns);
    assert_eq!(s.failed_domains.len() + s.successful, s.attempted);
}

#[test]
fn no_samples_at_all() {
    let p = plan(&[], 1);
    let s = summarize("E", &Vec::new(), &p);
    assert_eq!(s.attempted, 0);
    assert_eq!(s.success_rate_bp, 0);
    assert_eq!(s.median_ns, p.timeout_ns);
}

#[test]
fn median_of_even_count_is_lower_middle_and_unsorted_input_is_sorted() {
    let p = plan(&["a.test"], 6);
    let samples = vec![
        QuerySample::Latency(60),
        QuerySample::Latency(10),
        QuerySample::Latency(50),
        QuerySample::Latency(20),
        QuerySample::Latency(40),
        QuerySample::Latency(30),
    ];
    let s = summarize("F", &samples, &p);
    assert_eq!(s.median_ns, 30);
    assert_eq!(s.min_ns, 10);
    assert_eq!(s.max_ns, 60);
    assert_eq!(s.avg_ns, 35);
}

#[test]
fn median_of_odd_count_is_middle() {
    let p = plan(&["a.test"], 5);
    let samples: Vec<QuerySample> = [9, 1, 7, 3, 5].iter().map(|&t| QuerySample::Latency(t)).collect();
    let s = summarize("G", &samples, &p);
    assert_eq!(s.median_ns, 5);
    assert_eq!(s.avg_ns, 5);
}

#[test]
fn mean_rounds_down() {
    let p = plan(&["a.test"], 2);
    let samples = vec![QuerySample::Latency(1), QuerySample::Latency(2)];
    let s = summarize("H", &samples, &p);
    assert_eq!(s.avg_ns, 1);
}

#[test]
fn mean_of_largest_latencies_does_not_overflow() {
    let p = plan(&["a.test"], 3);
    let samples = vec![QuerySample::Latency(u64::MAX); 3];
    let s = summarize("I", &samples, &p);
    assert_eq!(s.avg_ns, u64::MAX);
    assert_eq!(s.max_ns, u64::MAX);
}

#[test]
fn min_median_max_ordered_on_varied_sets() {
    let p = plan(&["a.test", "b.test", "c.test"], 3);
    let sets: Vec<Vec<u64>> = vec![
        vec![5],
        vec![3, 3, 3],
        vec![100, 1, 50, 2],
        vec![9, 8, 7, 6, 5, 4, 3, 2, 1],
        vec![0, u64::MAX],
    ];
    for set in sets {
        let samples: Vec<QuerySample> = set.iter().map(|&t| QuerySample::Latency(t)).collect();
        let s = summarize("J", &samples, &p);
        assert!(s.min_ns <= s.median_ns && s.median_ns <= s.max_ns);
        assert!(s.min_ns <= s.avg_ns && s.avg_ns <= s.max_ns);
    }
}

#[test]
fn shuffled_samples_give_the_same_statistics() {
    let p = plan(&["a.test", "b.test"], 3);
    let a = vec![
        QuerySample::Latency(12),
        QuerySample::TcpUnreachable(1),
        QuerySample::Latency(4),
        QuerySample::ResolutionError(0),
        QuerySample::Latency(30),
        QuerySample::Latency(4),
    ];
    let b = vec![
        QuerySample::Latency(4),
        QuerySample::Latency(30),
        QuerySample::ResolutionError(0),
        QuerySample::Latency(4),
        QuerySample::TcpUnreachable(1),
        QuerySample::Latency(12),
    ];
    let sa = summarize("K", &a, &p);
    let sb = summarize("K", &b, &p);
    assert_eq!(stats(&sa), stats(&sb));
}

#[test]
fn summarizing_twice_gives_identical_summaries() {
    let p = plan(&["a.test", "b.test"], 2);
    let samples = vec![
        QuerySample::Latency(3),
        QuerySample::ResolutionError(1),
        QuerySample::TcpUnreachable(0),
        QuerySample::Latency(8),
    ];
    let first = summarize("L", &samples, &p);
    let second = summarize("L", &samples, &p);
    assert_eq!(stats(&first), stats(&second));
    assert_eq!(first.provider, second.provider);
    assert_eq!(first.failed_domains, second.failed_domains);
}

#[test]
fn failures_must_name_a_planned_domain() {
    let samples = vec![QuerySample::Latency(1), QuerySample::ResolutionError(2)];
    assert!(all_refer_within(&samples, 3));
    assert!(!all_refer_within(&samples, 2));
    assert!(all_refer_within(&vec![QuerySample::Latency(1)], 0));
}
