//! Static configuration of a benchmark run and its validation.

use vstd::prelude::*;

verus! {

/// A DNS resolver under test, identified by display name and IP address.
pub struct Provider {
    pub name: String,
    pub address: String,
}

/// The measurement plan shared read-only by every provider test.
///
/// All durations are in nanoseconds.
pub struct TestPlan {
    /// The name looked up once, result discarded, before the measured queries.
    pub warm_up_domain: String,
    /// The domains queried in each round, in this order.
    pub domains: Vec<String>,
    pub rounds: u64,
    pub timeout_ns: u64,
    pub inter_query_delay_ns: u64,
    pub inter_round_delay_ns: u64,
}

impl TestPlan {
    /// At least one round, and a query count that fits the machine's indices.
    pub open spec fn wf(&self) -> bool {
        &&& self.rounds >= 1
        &&& self.rounds * self.domains@.len() <= usize::MAX
    }

    /// The number of (round, domain) queries the plan asks for.
    pub open spec fn attempts(&self) -> nat {
        (self.rounds * self.domains@.len()) as nat
    }
}

/// Why a plan was refused before any query was made.
#[derive(Debug, Clone, Copy, PartialEq, Eq, Structural)]
pub enum PlanError {
    NoRounds,
    TooManyQueries,
    InvalidWarmUpDomain,
    /// The domain at this index of the plan is not a valid DNS name.
    InvalidDomain(usize),
}

/// Whether hickory accepts the text as an ASCII domain name.
pub uninterp spec fn ascii_name_ok(s: Seq<char>) -> bool;

/// Relies on hickory's `Name::from_ascii`: whether the text parses as a
/// domain name. The outcome depends on the text alone.
#[verifier::external_body]
fn parses_as_name(s: &str) -> (r: bool)
    ensures
        r == ascii_name_ok(s@),
{
    hickory_resolver::Name::from_ascii(s).is_ok()
}

/// The index of the first `false` in `s`, or `s.len()` when there is none.
pub open spec fn first_false(s: Seq<bool>) -> nat
    decreases s.len(),
{
    if s.len() == 0 {
        0
    } else if !s[0] {
        0
    } else {
        1 + first_false(s.drop_first())
    }
}

/// The outcome of validating a plan with `rounds` rounds, whose warm-up name
/// parses iff `warm_up_ok` and whose domains parse as `names_ok` says.
pub open spec fn plan_verdict(rounds: nat, warm_up_ok: bool, names_ok: Seq<bool>) -> Result<
    (),
    PlanError,
> {
    if rounds == 0 {
        Err(PlanError::NoRounds)
    } else if rounds * names_ok.len() > usize::MAX {
        Err(PlanError::TooManyQueries)
    } else if !warm_up_ok {
        Err(PlanError::InvalidWarmUpDomain)
    } else if first_false(names_ok) < names_ok.len() {
        Err(PlanError::InvalidDomain(first_false(names_ok) as usize))
    } else {
        Ok(())
    }
}

/// Which of the plan's domains parse as names.
pub open spec fn domains_ok(domains: Seq<String>) -> Seq<bool> {
    domains.map_values(|d: String| ascii_name_ok(d@))
}

proof fn lemma_first_false_at(s: Seq<bool>, i: int)
    requires
        0 <= i <= s.len(),
        forall|j: int| 0 <= j < i ==> s[j],
        i == s.len() || !s[i],
    ensures
        first_false(s) == i,
    decreases i,
{
    if i > 0 {
        lemma_first_false_at(s.drop_first(), i - 1);
    }
}

/// Decides a plan's validity from its round count and from which of its names
/// parse.
pub fn check_plan(rounds: u64, warm_up_ok: bool, names_ok: &Vec<bool>) -> (r: Result<
    (),
    PlanError,
>)
    ensures
        r == plan_verdict(rounds as nat, warm_up_ok, names_ok@),
{
    if rounds == 0 {
        return Err(PlanError::NoRounds);
    }
    if names_ok.len() > 0 && rounds > (usize::MAX as u64) / (names_ok.len() as u64) {
        assert(rounds * names_ok@.len() > usize::MAX) by (nonlinear_arith)
            requires
                names_ok@.len() > 0,
                rounds > usize::MAX as int / (names_ok@.len() as int),
        ;
        return Err(PlanError::TooManyQueries);
    }
    assert(rounds * names_ok@.len() <= usize::MAX) by (nonlinear_arith)
        requires
            names_ok@.len() == 0 || rounds <= usize::MAX as int / (names_ok@.len() as int),
    ;
    if !warm_up_ok {
        return Err(PlanError::InvalidWarmUpDomain);
    }
    let n = names_ok.len();
    for i in 0..n
        invariant
            n == names_ok@.len(),
            rounds >= 1,
            rounds * names_ok@.len() <= usize::MAX,
            warm_up_ok,
            forall|j: int| 0 <= j < i ==> names_ok@[j],
    {
        if !names_ok[i] {
            proof {
                lemma_first_false_at(names_ok@, i as int);
            }
            return Err(PlanError::InvalidDomain(i));
        }
    }
    proof {
        lemma_first_false_at(names_ok@, n as int);
    }
    Ok(())
}

/// Refuses a plan with no rounds, with more queries than the machine can
/// count, or with a name that is not a valid DNS name.
pub fn validate_plan(plan: &TestPlan) -> (r: Result<(), PlanError>)
    ensures
        r == plan_verdict(
            plan.rounds as nat,
            ascii_name_ok(plan.warm_up_domain@),
            domains_ok(plan.domains@),
        ),
        r is Ok <==> plan.wf() && ascii_name_ok(plan.warm_up_domain@) && forall|i: int|
            0 <= i < plan.domains@.len() ==> ascii_name_ok(#[trigger] plan.domains@[i]@),
{
    let warm_up_ok = parses_as_name(plan.warm_up_domain.as_str());
    let mut names_ok: Vec<bool> = Vec::new();
    let n = plan.domains.len();
    for i in 0..n
        invariant
            n == plan.domains@.len(),
            names_ok@ == domains_ok(plan.domains@.take(i as int)),
    {
        let ok = parses_as_name(plan.domains[i].as_str());
        names_ok.push(ok);
        assert(plan.domains@.take(i + 1) == plan.domains@.take(i as int).push(plan.domains@[i as int]));
    }
    assert(plan.domains@.take(n as int) == plan.domains@);
    let r = check_plan(plan.rounds, warm_up_ok, &names_ok);
    proof {
        let oks = domains_ok(plan.domains@);
        lemma_first_false_bounds(oks);
        assert forall|i: int| 0 <= i < oks.len() implies oks[i] == ascii_name_ok(
            #[trigger] plan.domains@[i]@,
        ) by {}
        if first_false(oks) < oks.len() {
            let k = first_false(oks) as int;
            assert(!ascii_name_ok(plan.domains@[k]@));
        }
    }
    r
}

proof fn lemma_first_false_bounds(s: Seq<bool>)
    ensures
        first_false(s) <= s.len(),
        first_false(s) < s.len() ==> !s[first_false(s) as int],
        forall|j: int| 0 <= j < first_false(s) ==> s[j],
    decreases s.len(),
{
    if s.len() > 0 && s[0] {
        lemma_first_false_bounds(s.drop_first());
        assert forall|j: int| 0 <= j < first_false(s) implies s[j] by {
            if j > 0 {
                assert(s[j] == s.drop_first()[j - 1]);
            }
        }
    }
}

} // verus!
