//! Reduction of one provider's raw query samples to summary statistics.

use vstd::prelude::*;
use vstd::relations::{sorted_by, total_ordering};
use vstd::seq_lib::lemma_sorted_unique;
use vstd::string::StringExecFns;
use crate::plan::TestPlan;

verus! {

broadcast use vstd::seq_lib::group_to_multiset_ensures;

/// The outcome of one (round, domain) query attempt.
///
/// Latencies are in nanoseconds; a failure names its domain by its index in
/// the plan's domain list.
#[derive(Debug, Clone, Copy, PartialEq, Eq, Structural)]
pub enum QuerySample {
    Latency(u64),
    /// The resolver's DNS port did not accept a connection in time, so no
    /// query was sent.
    TcpUnreachable(usize),
    /// The query failed or timed out.
    ResolutionError(usize),
}

impl QuerySample {
    /// A failure refers to one of `domain_count` domains.
    pub open spec fn refers_within(self, domain_count: nat) -> bool {
        match self {
            QuerySample::Latency(_) => true,
            QuerySample::TcpUnreachable(d) => d < domain_count,
            QuerySample::ResolutionError(d) => d < domain_count,
        }
    }
}

/// Every failure in `s` refers to one of `domain_count` domains.
pub open spec fn samples_refer_within(s: Seq<QuerySample>, domain_count: nat) -> bool {
    forall|i: int| 0 <= i < s.len() ==> (#[trigger] s[i]).refers_within(domain_count)
}

/// The statistics of one provider's test.
///
/// Latencies are in nanoseconds; the success rate is in hundredths of a
/// percent, rounded down.
pub struct ProviderSummary {
    pub provider: String,
    pub avg_ns: u64,
    pub min_ns: u64,
    pub max_ns: u64,
    pub median_ns: u64,
    pub successful: usize,
    pub attempted: usize,
    pub success_rate_bp: u64,
    /// One entry per failed query, in the order the failures occurred.
    pub failed_domains: Vec<String>,
}

impl ProviderSummary {
    /// Counts agree with each other and the latency statistics are ordered.
    pub open spec fn wf(&self) -> bool {
        &&& self.successful + self.failed_domains@.len() == self.attempted
        &&& self.success_rate_bp == success_rate_bp(self.successful as nat, self.attempted as nat)
        &&& self.successful > 0 ==> self.min_ns <= self.median_ns <= self.max_ns
        &&& self.successful > 0 ==> self.min_ns <= self.avg_ns <= self.max_ns
        &&& self.successful == 0 ==> self.min_ns == self.median_ns == self.max_ns == self.avg_ns
    }
}

/// The successful latencies of `s`, in the order they were measured.
pub open spec fn latencies(s: Seq<QuerySample>) -> Seq<u64>
    decreases s.len(),
{
    if s.len() == 0 {
        Seq::empty()
    } else {
        let rest = latencies(s.drop_last());
        match s.last() {
            QuerySample::Latency(t) => rest.push(t),
            _ => rest,
        }
    }
}

/// The order in which latencies are ranked.
pub open spec fn ascending() -> spec_fn(u64, u64) -> bool {
    |a: u64, b: u64| a <= b
}

/// The successful latencies of `s`, smallest first.
pub open spec fn sorted_latencies(s: Seq<QuerySample>) -> Seq<u64> {
    latencies(s).sort_by(ascending())
}

/// The sum of the values of `s`.
pub open spec fn total(s: Seq<u64>) -> int
    decreases s.len(),
{
    if s.len() == 0 {
        0
    } else {
        total(s.drop_last()) + s.last()
    }
}

/// The smallest latency, or `timeout` when nothing succeeded.
pub open spec fn min_latency(s: Seq<QuerySample>, timeout: u64) -> u64 {
    let l = sorted_latencies(s);
    if l.len() == 0 { timeout } else { l[0] }
}

/// The largest latency, or `timeout` when nothing succeeded.
pub open spec fn max_latency(s: Seq<QuerySample>, timeout: u64) -> u64 {
    let l = sorted_latencies(s);
    if l.len() == 0 { timeout } else { l[l.len() - 1] }
}

/// The middle latency, or `timeout` when nothing succeeded. For an even
/// count this is the lower of the two middle values.
pub open spec fn median_latency(s: Seq<QuerySample>, timeout: u64) -> u64 {
    let l = sorted_latencies(s);
    if l.len() == 0 { timeout } else { l[(l.len() - 1) / 2] }
}

/// The arithmetic mean of the latencies, rounded down, or `timeout` when
/// nothing succeeded.
pub open spec fn mean_latency(s: Seq<QuerySample>, timeout: u64) -> u64 {
    let l = sorted_latencies(s);
    if l.len() == 0 { timeout } else { (total(l) / (l.len() as int)) as u64 }
}

/// `100 * successful / attempted` in hundredths of a percent, rounded down;
/// 0 when nothing was attempted.
pub open spec fn success_rate_bp(successful: nat, attempted: nat) -> nat {
    if attempted == 0 { 0 } else { (10000 * successful / attempted) as nat }
}

/// The text appended to a domain whose resolver could not be reached.
pub open spec fn tcp_failed_suffix() -> Seq<char> {
    " (TCP Failed)"@
}

/// One label per failed sample of `s`, in order: the domain's name, marked
/// when the resolver was unreachable.
pub open spec fn failure_labels(s: Seq<QuerySample>, domains: Seq<Seq<char>>) -> Seq<Seq<char>>
    decreases s.len(),
{
    if s.len() == 0 {
        Seq::empty()
    } else {
        let rest = failure_labels(s.drop_last(), domains);
        match s.last() {
            QuerySample::Latency(_) => rest,
            QuerySample::TcpUnreachable(d) => rest.push(domains[d as int] + tcp_failed_suffix()),
            QuerySample::ResolutionError(d) => rest.push(domains[d as int]),
        }
    }
}

/// The views of a list of strings.
pub open spec fn string_views(v: Seq<String>) -> Seq<Seq<char>> {
    v.map_values(|x: String| x@)
}

/// The names of a plan's domains.
pub open spec fn domain_names(plan: &TestPlan) -> Seq<Seq<char>> {
    string_views(plan.domains@)
}

/// `r` holds the statistics of the samples `s` of the provider `name`, with
/// the failures labelled from `domains` and `timeout` standing in for
/// absent latencies.
pub open spec fn summarizes(
    r: ProviderSummary,
    name: Seq<char>,
    s: Seq<QuerySample>,
    domains: Seq<Seq<char>>,
    timeout: u64,
) -> bool {
    &&& r.provider@ == name
    &&& r.successful == latencies(s).len()
    &&& r.attempted == s.len()
    &&& r.success_rate_bp == success_rate_bp(latencies(s).len(), s.len())
    &&& r.min_ns == min_latency(s, timeout)
    &&& r.max_ns == max_latency(s, timeout)
    &&& r.median_ns == median_latency(s, timeout)
    &&& r.avg_ns == mean_latency(s, timeout)
    &&& string_views(r.failed_domains@) == failure_labels(s, domains)
}

proof fn lemma_ascending_total()
    ensures
        total_ordering(ascending()),
{
}

proof fn lemma_sorted_latencies(s: Seq<QuerySample>)
    ensures
        sorted_by(sorted_latencies(s), ascending()),
        sorted_latencies(s).to_multiset() == latencies(s).to_multiset(),
        sorted_latencies(s).len() == latencies(s).len(),
{
    lemma_ascending_total();
    latencies(s).lemma_sort_by_ensures(ascending());
    assert(sorted_latencies(s).to_multiset().len() == latencies(s).to_multiset().len());
}

proof fn lemma_insert_multiset(s: Seq<u64>, j: int, x: u64)
    requires
        0 <= j <= s.len(),
    ensures
        s.insert(j, x).to_multiset() == s.to_multiset().insert(x),
{
    broadcast use vstd::multiset::group_multiset_axioms;

    let t = s.insert(j, x);
    assert(t.remove(j) =~= s);
    assert(t.to_multiset().count(x) > 0) by {
        assert(t.contains(x)) by {
            assert(t[j] == x);
        }
    }
    assert(t.to_multiset() =~= s.to_multiset().insert(x));
}

/// Each sample is either a success or a failure label.
pub proof fn lemma_labels_len(s: Seq<QuerySample>, domains: Seq<Seq<char>>)
    ensures
        latencies(s).len() + failure_labels(s, domains).len() == s.len(),
    decreases s.len(),
{
    if s.len() > 0 {
        lemma_labels_len(s.drop_last(), domains);
    }
}

proof fn lemma_total_bound(s: Seq<u64>)
    ensures
        0 <= total(s) <= s.len() * (u64::MAX as int),
    decreases s.len(),
{
    if s.len() > 0 {
        lemma_total_bound(s.drop_last());
        assert((s.len() - 1) * (u64::MAX as int) + u64::MAX == s.len() * (u64::MAX as int))
            by (nonlinear_arith);
    }
}

proof fn lemma_mean_bounds(l: Seq<u64>)
    requires
        l.len() > 0,
        sorted_by(l, ascending()),
    ensures
        l[0] <= total(l) / (l.len() as int) <= l[l.len() - 1],
{
    assert forall|i: int| 0 <= i < l.len() implies l[0] <= #[trigger] l[i] <= l[l.len() - 1] by {
        if i > 0 {
            assert(ascending()(l[0], l[i]));
        }
        if i < l.len() - 1 {
            assert(ascending()(l[i], l[l.len() - 1]));
        }
    }
    lemma_total_between(l, l[0], l[l.len() - 1]);
    let n = l.len() as int;
    let t = total(l);
    let lo = l[0] as int;
    let hi = l[l.len() - 1] as int;
    assert(lo <= t / n <= hi) by (nonlinear_arith)
        requires
            n > 0,
            n * lo <= t <= n * hi,
    ;
}

proof fn lemma_total_between(l: Seq<u64>, lo: u64, hi: u64)
    requires
        forall|i: int| 0 <= i < l.len() ==> lo <= #[trigger] l[i] <= hi,
    ensures
        l.len() * (lo as int) <= total(l) <= l.len() * (hi as int),
    decreases l.len(),
{
    if l.len() > 0 {
        let p = l.drop_last();
        assert forall|i: int| 0 <= i < p.len() implies lo <= #[trigger] p[i] <= hi by {
            assert(p[i] == l[i]);
        }
        lemma_total_between(p, lo, hi);
        assert(l.len() * (lo as int) == p.len() * (lo as int) + lo) by (nonlinear_arith)
            requires
                l.len() == p.len() + 1,
        ;
        assert(l.len() * (hi as int) == p.len() * (hi as int) + hi) by (nonlinear_arith)
            requires
                l.len() == p.len() + 1,
        ;
    }
}

/// For every non-empty set of successful samples the median lies between
/// the smallest and the largest latency.
pub proof fn lemma_median_between(s: Seq<QuerySample>, timeout: u64)
    requires
        latencies(s).len() > 0,
    ensures
        min_latency(s, timeout) <= median_latency(s, timeout) <= max_latency(s, timeout),
{
    lemma_sorted_latencies(s);
    let l = sorted_latencies(s);
    let m = (l.len() - 1) / 2;
    if m > 0 {
        assert(ascending()(l[0], l[m]));
    }
    if m < l.len() - 1 {
        assert(ascending()(l[m], l[l.len() - 1]));
    }
}

proof fn lemma_latency_counts(s: Seq<QuerySample>, t: u64)
    ensures
        latencies(s).to_multiset().count(t) == s.to_multiset().count(QuerySample::Latency(t)),
    decreases s.len(),
{
    broadcast use vstd::multiset::group_multiset_axioms;

    if s.len() > 0 {
        let p = s.drop_last();
        lemma_latency_counts(p, t);
        assert(s == p.push(s.last()));
        match s.last() {
            QuerySample::Latency(u) => {
                assert(latencies(s) == latencies(p).push(u));
            },
            _ => {},
        }
    }
}

proof fn lemma_same_latencies(s1: Seq<QuerySample>, s2: Seq<QuerySample>)
    requires
        s1.to_multiset() == s2.to_multiset(),
    ensures
        sorted_latencies(s1) == sorted_latencies(s2),
        s1.len() == s2.len(),
{
    assert(latencies(s1).to_multiset() =~= latencies(s2).to_multiset()) by {
        assert forall|t: u64| #[trigger] latencies(s1).to_multiset().count(t) == latencies(
            s2,
        ).to_multiset().count(t) by {
            lemma_latency_counts(s1, t);
            lemma_latency_counts(s2, t);
        }
    }
    lemma_sorted_latencies(s1);
    lemma_sorted_latencies(s2);
    lemma_ascending_total();
    lemma_sorted_unique(sorted_latencies(s1), sorted_latencies(s2), ascending());
    s1.to_multiset_ensures();
    s2.to_multiset_ensures();
}

/// Summaries of the same samples taken in another order have the same
/// statistics: only the order of the failure list may differ.
pub proof fn lemma_statistics_ignore_order(
    r1: ProviderSummary,
    r2: ProviderSummary,
    name: Seq<char>,
    s1: Seq<QuerySample>,
    s2: Seq<QuerySample>,
    domains: Seq<Seq<char>>,
    timeout: u64,
)
    requires
        summarizes(r1, name, s1, domains, timeout),
        summarizes(r2, name, s2, domains, timeout),
        s1.to_multiset() == s2.to_multiset(),
    ensures
        r1.avg_ns == r2.avg_ns,
        r1.min_ns == r2.min_ns,
        r1.max_ns == r2.max_ns,
        r1.median_ns == r2.median_ns,
        r1.successful == r2.successful,
        r1.attempted == r2.attempted,
        r1.success_rate_bp == r2.success_rate_bp,
{
    lemma_same_latencies(s1, s2);
    lemma_sorted_latencies(s1);
    lemma_sorted_latencies(s2);
}

/// Summarizing the same samples twice gives the same summary.
pub proof fn lemma_summary_deterministic(
    r1: ProviderSummary,
    r2: ProviderSummary,
    name: Seq<char>,
    s: Seq<QuerySample>,
    domains: Seq<Seq<char>>,
    timeout: u64,
)
    requires
        summarizes(r1, name, s, domains, timeout),
        summarizes(r2, name, s, domains, timeout),
    ensures
        r1.provider@ == r2.provider@,
        r1.avg_ns == r2.avg_ns,
        r1.min_ns == r2.min_ns,
        r1.max_ns == r2.max_ns,
        r1.median_ns == r2.median_ns,
        r1.successful == r2.successful,
        r1.attempted == r2.attempted,
        r1.success_rate_bp == r2.success_rate_bp,
        string_views(r1.failed_domains@) == string_views(r2.failed_domains@),
{
}

/// The first position of the ascending `sorted` that holds a value above `t`.
fn insertion_point(sorted: &Vec<u64>, t: u64) -> (j: usize)
    requires
        sorted_by(sorted@, ascending()),
    ensures
        j <= sorted@.len(),
        forall|k: int| 0 <= k < j ==> sorted@[k] <= t,
        forall|k: int| j <= k < sorted@.len() ==> sorted@[k] > t,
{
    let mut j: usize = 0;
    while j < sorted.len() && sorted[j] <= t
        invariant
            j <= sorted@.len(),
            forall|k: int| 0 <= k < j ==> sorted@[k] <= t,
        decreases sorted@.len() - j,
    {
        j = j + 1;
    }
    assert forall|k: int| j <= k < sorted@.len() implies sorted@[k] > t by {
        assert(ascending()(sorted@[j as int], sorted@[k]) || k == j);
    }
    j
}

/// Whether every failure among `samples` refers to one of `domain_count`
/// domains.
pub fn all_refer_within(samples: &Vec<QuerySample>, domain_count: usize) -> (r: bool)
    ensures
        r == samples_refer_within(samples@, domain_count as nat),
{
    let n = samples.len();
    for i in 0..n
        invariant
            n == samples@.len(),
            forall|k: int| 0 <= k < i ==> (#[trigger] samples@[k]).refers_within(domain_count as nat),
    {
        let ok = match samples[i] {
            QuerySample::Latency(_) => true,
            QuerySample::TcpUnreachable(d) => d < domain_count,
            QuerySample::ResolutionError(d) => d < domain_count,
        };
        if !ok {
            return false;
        }
    }
    true
}

/// Reduces the samples of one provider's test to its summary.
///
/// Latencies are sorted ascending; the median is the lower of the two middle
/// values for an even count; every failure is listed under its domain's name,
/// marked when the resolver was unreachable; `plan.timeout_ns` stands in for
/// every latency statistic when nothing succeeded.
pub fn summarize(provider_name: &str, samples: &Vec<QuerySample>, plan: &TestPlan) -> (r:
    ProviderSummary)
    requires
        samples_refer_within(samples@, plan.domains@.len()),
    ensures
        summarizes(r, provider_name@, samples@, domain_names(plan), plan.timeout_ns),
        r.wf(),
{
    let ghost domains = domain_names(plan);
    let mut sorted: Vec<u64> = Vec::new();
    let mut failed_domains: Vec<String> = Vec::new();
    let n = samples.len();
    for i in 0..n
        invariant
            n == samples@.len(),
            samples_refer_within(samples@, plan.domains@.len()),
            domains == domain_names(plan),
            sorted_by(sorted@, ascending()),
            sorted@.to_multiset() == latencies(samples@.take(i as int)).to_multiset(),
            string_views(failed_domains@) == failure_labels(samples@.take(i as int), domains),
    {
        let ghost prefix = samples@.take(i as int);
        assert(samples@.take(i + 1).drop_last() == prefix);
        assert(samples@.take(i + 1).last() == samples@[i as int]);
        assert(samples@[i as int].refers_within(plan.domains@.len()));
        match samples[i] {
            QuerySample::Latency(t) => {
                let j = insertion_point(&sorted, t);
                let ghost before = sorted@;
                proof {
                    lemma_insert_multiset(sorted@, j as int, t);
                }
                sorted.insert(j, t);
                assert forall|a: int, b: int| 0 <= a < b < sorted@.len() implies #[trigger] ascending()(
                    sorted@[a],
                    sorted@[b],
                ) by {
                    if b < j {
                        assert(ascending()(before[a], before[b]));
                    } else if a > j {
                        assert(ascending()(before[a - 1], before[b - 1]));
                    } else if a < j && b > j {
                        assert(ascending()(before[a], before[b - 1]));
                    }
                }
            },
            QuerySample::TcpUnreachable(d) => {
                let mut label = plan.domains[d].clone();
                label.append(" (TCP Failed)");
                failed_domains.push(label);
            },
            QuerySample::ResolutionError(d) => {
                failed_domains.push(plan.domains[d].clone());
            },
        }
        assert(string_views(failed_domains@) =~= failure_labels(samples@.take(i + 1), domains));
    }
    assert(samples@.take(n as int) == samples@);
    proof {
        lemma_sorted_latencies(samples@);
        lemma_ascending_total();
        lemma_sorted_unique(sorted@, sorted_latencies(samples@), ascending());
        lemma_labels_len(samples@, domains);
    }
    let count = sorted.len();
    let mut sum: u128 = 0;
    for i in 0..count
        invariant
            count == sorted@.len(),
            sum == total(sorted@.take(i as int)),
    {
        proof {
            assert(sorted@.take(i + 1).drop_last() == sorted@.take(i as int));
            lemma_total_bound(sorted@.take(i + 1));
            assert((i + 1) * (u64::MAX as int) <= u128::MAX) by (nonlinear_arith)
                requires
                    i + 1 <= usize::MAX,
            ;
        }
        sum = sum + sorted[i] as u128;
    }
    assert(sorted@.take(count as int) == sorted@);
    let timeout = plan.timeout_ns;
    let (avg_ns, min_ns, max_ns, median_ns) = if count == 0 {
        (timeout, timeout, timeout, timeout)
    } else {
        proof {
            lemma_mean_bounds(sorted@);
            if (count - 1) / 2 > 0 {
                assert(ascending()(sorted@[0], sorted@[(count - 1) / 2]));
            }
            if (count - 1) / 2 < count - 1 {
                assert(ascending()(sorted@[(count - 1) / 2], sorted@[count - 1]));
            }
        }
        let avg = (sum / (count as u128)) as u64;
        (avg, sorted[0], sorted[count - 1], sorted[(count - 1) / 2])
    };
    let success_rate_bp: u64 = if n == 0 {
        0
    } else {
        assert(10000 * (count as int) / (n as int) <= 10000) by (nonlinear_arith)
            requires
                count <= n,
                n > 0,
        ;
        ((10000u128 * (count as u128)) / (n as u128)) as u64
    };
    ProviderSummary {
        provider: provider_name.to_owned(),
        avg_ns,
        min_ns,
        max_ns,
        median_ns,
        successful: count,
        attempted: n,
        success_rate_bp,
        failed_domains,
    }
}

} // verus!
