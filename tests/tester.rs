use dns_speed::plan::TestPlan;
use dns_speed::summary::{summarize, QuerySample};
use dns_speed::tester::{Action, ProviderTester};

fn plan(domains: &[&str], rounds: u64) -> TestPlan {
    TestPlan {
        warm_up_domain: "example.com".to_string(),
        domains: domains.iter().map(|d| d.to_string()).collect(),
        rounds,
        timeout_ns: 3_000_000_000,
        inter_query_delay_ns: 100,
        inter_round_delay_ns: 200,
    }
}

#[test]
fn single_domain_unreachable_resolver() {
    let p = plan(&["only.test"], 1);
    let mut t = ProviderTester::new(&p);
    assert_eq!(t.step(None), Action::WarmUp);
    assert_eq!(t.step(None), Action::Pause(100));
    assert_eq!(t.step(None), Action::Probe(0));
    assert!(!t.is_finished());
    assert_eq!(t.step(None), Action::Finished);
    assert!(t.is_finished());
    assert_eq!(t.samples(), &vec![QuerySample::TcpUnreachable(0)]);
    let s = summarize("Down", t.samples(), &p);
    assert_eq!(s.success_rate_bp, 0);
    assert_eq!(s.failed_domains, vec!["only.test (TCP Failed)".to_string()]);
    assert_eq!(s.min_ns, p.timeout_ns);
    assert_eq!(s.max_ns, p.timeout_ns);
    assert_eq!(s.median_ns, p.timeout_ns);
    assert_eq!(s.avg_ns, p.timeout_ns);
}

#[test]
fn full_sequence_of_two_rounds() {
    let p = plan(&["a.test", "b.test"], 2);
    let mut t = ProviderTester::new(&p);
    assert_eq!(t.step(None), Action::WarmUp);
    // The warm-up outcome is discarded whatever it was.
    assert_eq!(t.step(Some(999)), Action::Pause(100));
    assert_eq!(t.step(None), Action::Probe(0));
    assert_eq!(t.step(Some(1)), Action::Resolve(0));
    assert_eq!(t.step(Some(10)), Action::Pause(100));
    assert_eq!(t.step(None), Action::Probe(1));
    assert_eq!(t.step(Some(1)), Action::Resolve(1));
    assert_eq!(t.step(None), Action::Pause(100));
    assert_eq!(t.step(None), Action::Pause(200));
    assert_eq!(t.step(None), Action::Probe(0));
    // An unreachable resolver skips the query and the pause after it.
    assert_eq!(t.step(None), Action::Probe(1));
    assert_eq!(t.step(Some(1)), Action::Resolve(1));
    assert_eq!(t.step(Some(30)), Action::Pause(100));
    assert_eq!(t.step(None), Action::Finished);
    assert_eq!(t.step(None), Action::Finished);
    assert_eq!(
        t.samples(),
        &vec![
            QuerySample::Latency(10),
            QuerySample::ResolutionError(1),
            QuerySample::TcpUnreachable(0),
            QuerySample::Latency(30),
        ]
    );
    let s = summarize("P", t.samples(), &p);
    assert_eq!(s.successful + s.failed_domains.len(), 4);
    assert_eq!(s.attempted, 4);
    assert_eq!(
        s.failed_domains,
        vec!["b.test".to_string(), "a.test (TCP Failed)".to_string()]
    );
    assert_eq!(s.success_rate_bp, 5_000);
}

#[test]
fn every_query_counted_when_all_fail() {
    let p = plan(&["a.test", "b.test", "c.test"], 3);
    let mut t = ProviderTester::new(&p);
    let mut steps = 0;
    while t.step(None) != Action::Finished {
        steps += 1;
        assert!(steps < 100);
    }
    assert_eq!(t.samples().len(), 9);
    let s = summarize("Q", t.samples(), &p);
    assert_eq!(s.successful + s.failed_domains.len(), 9);
    assert_eq!(s.success_rate_bp, 0);
}

#[test]
fn plan_without_domains_still_pauses_between_rounds() {
    let p = plan(&[], 2);
    let mut t = ProviderTester::new(&p);
    assert_eq!(t.step(None), Action::WarmUp);
    assert_eq!(t.step(None), Action::Pause(100));
    assert_eq!(t.step(None), Action::Pause(200));
    assert_eq!(t.step(None), Action::Finished);
    assert!(t.samples().is_empty());
}
