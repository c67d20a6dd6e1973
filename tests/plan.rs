use dns_speed::plan::{check_plan, validate_plan, PlanError, TestPlan};

fn plan(warm_up: &str, domains: &[&str], rounds: u64) -> TestPlan {
    TestPlan {
        warm_up_domain: warm_up.to_string(),
        domains: domains.iter().map(|d| d.to_string()).collect(),
        rounds,
        timeout_ns: 3_000_000_000,
        inter_query_delay_ns: 100_000_000,
        inter_round_delay_ns: 200_000_000,
    }
}

#[test]
fn reference_plan_is_valid() {
    let p = plan(
        "example.com",
        &["google.com", "gitlab.com", "cloudflare.com", "wikipedia.org"],
        5,
    );
    assert_eq!(validate_plan(&p), Ok(()));
}

#[test]
fn zero_rounds_refused() {
    assert_eq!(validate_plan(&plan("example.com", &["a.test"], 0)), Err(PlanError::NoRounds));
}

#[test]
fn first_malformed_domain_reported() {
    let p = plan("example.com", &["ok.test", "bad name.test", "also bad.test"], 1);
    assert_eq!(validate_plan(&p), Err(PlanError::InvalidDomain(1)));
}

#[test]
fn malformed_warm_up_domain_refused() {
    let p = plan("exa mple.com", &["ok.test"], 1);
    assert_eq!(validate_plan(&p), Err(PlanError::InvalidWarmUpDomain));
}

#[test]
fn verdict_from_parse_results() {
    assert_eq!(check_plan(2, true, &vec![true, true]), Ok(()));
    assert_eq!(check_plan(2, true, &vec![true, false, false]), Err(PlanError::InvalidDomain(1)));
    assert_eq!(check_plan(2, false, &vec![false]), Err(PlanError::InvalidWarmUpDomain));
    assert_eq!(check_plan(0, false, &vec![false]), Err(PlanError::NoRounds));
    assert_eq!(check_plan(u64::MAX, true, &vec![true, true]), Err(PlanError::TooManyQueries));
    assert_eq!(check_plan(u64::MAX, true, &vec![]), Ok(()));
}
