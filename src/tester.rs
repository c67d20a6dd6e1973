//! The per-provider test sequence, as a machine from the outcome of the last
//! action to the next action.
//!
//! The driver performs each action and feeds its outcome back: a warm-up
//! lookup, then for every round and every domain in order a connection probe
//! of the resolver and, when it answers, one DNS query, with pauses between
//! queries and longer ones between rounds.

use vstd::prelude::*;
use crate::plan::TestPlan;
use crate::summary::{
    QuerySample,
    ProviderSummary,
    summarizes,
    samples_refer_within,
    lemma_labels_len,
};

verus! {

/// What the driver must do next.
#[derive(Debug, Clone, Copy, PartialEq, Eq, Structural)]
pub enum Action {
    /// Look up the plan's warm-up domain and discard the outcome; it only
    /// warms the resolver's connection and caches.
    WarmUp,
    /// Connect to the resolver's DNS port within the timeout. The outcome is
    /// the connect time, or `None` when it failed.
    Probe(usize),
    /// Resolve the plan's domain at this index within the timeout. The
    /// outcome is the latency, or `None` on an error or a timeout.
    Resolve(usize),
    /// Sleep this many nanoseconds; the outcome is ignored.
    Pause(u64),
    /// Every query is done; the samples are complete.
    Finished,
}

/// Where the machine stands.
#[derive(Debug, Clone, Copy, PartialEq, Eq, Structural)]
pub enum Phase {
    Start,
    WarmingUp,
    WarmUpPause,
    Probing,
    Resolving,
    QueryPause,
    RoundPause,
    Done,
}

/// The abstract state of a provider test.
pub struct TesterView {
    pub phase: Phase,
    pub round: nat,
    pub domain: nat,
    pub rounds: nat,
    pub domain_count: nat,
    pub query_pause: u64,
    pub round_pause: u64,
    pub samples: Seq<QuerySample>,
}

/// The sample recorded at position `k` belongs to the `k % m`-th domain.
pub open spec fn at_position(q: QuerySample, k: int, m: nat) -> bool {
    match q {
        QuerySample::Latency(_) => true,
        QuerySample::TcpUnreachable(d) => m > 0 && d == k % (m as int),
        QuerySample::ResolutionError(d) => m > 0 && d == k % (m as int),
    }
}

impl TesterView {
    /// Counts that fit the machine, a position inside the plan, and one sample
    /// for every (round, domain) pair already handled, each naming its own
    /// domain.
    pub open spec fn wf(self) -> bool {
        &&& self.rounds >= 1
        &&& self.rounds * self.domain_count <= usize::MAX
        &&& self.round < self.rounds
        &&& self.domain <= self.domain_count
        &&& self.samples.len() == self.round * self.domain_count + self.domain + (
        if self.phase == Phase::QueryPause {
            1int
        } else {
            0int
        })
        &&& (self.phase == Phase::Start || self.phase == Phase::WarmingUp || self.phase
            == Phase::WarmUpPause) ==> self.round == 0 && self.domain == 0
        &&& (self.phase == Phase::Probing || self.phase == Phase::Resolving || self.phase
            == Phase::QueryPause) ==> self.domain < self.domain_count
        &&& self.phase == Phase::RoundPause ==> self.domain == self.domain_count && self.round
            + 1 < self.rounds
        &&& self.phase == Phase::Done ==> self.domain == self.domain_count && self.round + 1
            == self.rounds
        &&& forall|k: int|
            0 <= k < self.samples.len() ==> at_position(
                #[trigger] self.samples[k],
                k,
                self.domain_count,
            )
    }

    /// The state reached on arriving at `domain` of `round`: probe it, or,
    /// past the last domain, pause before the next round or finish.
    pub open spec fn enter(self, round: nat, domain: nat) -> (TesterView, Action) {
        if domain < self.domain_count {
            (TesterView { phase: Phase::Probing, round, domain, ..self }, Action::Probe(domain as usize))
        } else if round + 1 < self.rounds {
            (TesterView { phase: Phase::RoundPause, round, domain, ..self }, Action::Pause(self.round_pause))
        } else {
            (TesterView { phase: Phase::Done, round, domain, ..self }, Action::Finished)
        }
    }

    /// The next state and action, given the outcome of the last action.
    ///
    /// A failed probe records the domain as unreachable and moves straight
    /// to the next domain; a query records its latency or its failure and is
    /// followed by a pause.
    pub open spec fn next(self, outcome: Option<u64>) -> (TesterView, Action) {
        match self.phase {
            Phase::Start => (TesterView { phase: Phase::WarmingUp, ..self }, Action::WarmUp),
            Phase::WarmingUp => (
                TesterView { phase: Phase::WarmUpPause, ..self },
                Action::Pause(self.query_pause),
            ),
            Phase::WarmUpPause => self.enter(0, 0),
            Phase::Probing => match outcome {
                None => TesterView {
                    samples: self.samples.push(QuerySample::TcpUnreachable(self.domain as usize)),
                    ..self
                }.enter(self.round, self.domain + 1),
                Some(_) => (
                    TesterView { phase: Phase::Resolving, ..self },
                    Action::Resolve(self.domain as usize),
                ),
            },
            Phase::Resolving => {
                let q = match outcome {
                    Some(t) => QuerySample::Latency(t),
                    None => QuerySample::ResolutionError(self.domain as usize),
                };
                (
                    TesterView { phase: Phase::QueryPause, samples: self.samples.push(q), ..self },
                    Action::Pause(self.query_pause),
                )
            },
            Phase::QueryPause => self.enter(self.round, self.domain + 1),
            Phase::RoundPause => self.enter(self.round + 1, 0),
            Phase::Done => (self, Action::Finished),
        }
    }
}

/// The state before anything was done for a provider tested under `plan`.
pub open spec fn initial(plan: &TestPlan) -> TesterView {
    TesterView {
        phase: Phase::Start,
        round: 0,
        domain: 0,
        rounds: plan.rounds as nat,
        domain_count: plan.domains@.len(),
        query_pause: plan.inter_query_delay_ns,
        round_pause: plan.inter_round_delay_ns,
        samples: Seq::empty(),
    }
}

/// Drives one provider through a test plan.
pub struct ProviderTester {
    phase: Phase,
    round: u64,
    domain: usize,
    rounds: u64,
    domain_count: usize,
    query_pause: u64,
    round_pause: u64,
    samples: Vec<QuerySample>,
}

impl View for ProviderTester {
    type V = TesterView;

    closed spec fn view(&self) -> TesterView {
        TesterView {
            phase: self.phase,
            round: self.round as nat,
            domain: self.domain as nat,
            rounds: self.rounds as nat,
            domain_count: self.domain_count as nat,
            query_pause: self.query_pause,
            round_pause: self.round_pause,
            samples: self.samples@,
        }
    }
}

proof fn lemma_position_domain(r: nat, m: nat, d: nat)
    requires
        d < m,
    ensures
        ((r * m + d) as int) % (m as int) == d,
{
    assert(r * m == m * r) by (nonlinear_arith);
    vstd::arithmetic::div_mod::lemma_mod_multiples_vanish(r as int, d as int, m as int);
    vstd::arithmetic::div_mod::lemma_small_mod(d, m);
}

impl ProviderTester {
    /// A test of one provider under `plan`, before its warm-up.
    pub fn new(plan: &TestPlan) -> (t: ProviderTester)
        requires
            plan.wf(),
        ensures
            t@ == initial(plan),
            t@.wf(),
    {
        ProviderTester {
            phase: Phase::Start,
            round: 0,
            domain: 0,
            rounds: plan.rounds,
            domain_count: plan.domains.len(),
            query_pause: plan.inter_query_delay_ns,
            round_pause: plan.inter_round_delay_ns,
            samples: Vec::new(),
        }
    }

    fn enter(&mut self, round: u64, domain: usize) -> (a: Action)
        requires
            old(self)@.rounds >= 1,
            old(self)@.rounds * old(self)@.domain_count <= usize::MAX,
            round < old(self)@.rounds,
            domain <= old(self)@.domain_count,
        ensures
            (final(self)@, a) == old(self)@.enter(round as nat, domain as nat),
    {
        self.round = round;
        self.domain = domain;
        if domain < self.domain_count {
            self.phase = Phase::Probing;
            Action::Probe(domain)
        } else if round + 1 < self.rounds {
            self.phase = Phase::RoundPause;
            Action::Pause(self.round_pause)
        } else {
            self.phase = Phase::Done;
            Action::Finished
        }
    }

    /// Takes the outcome of the last action and returns the next one.
    pub fn step(&mut self, outcome: Option<u64>) -> (a: Action)
        requires
            old(self)@.wf(),
        ensures
            (final(self)@, a) == old(self)@.next(outcome),
            final(self)@.wf(),
    {
        let ghost v = self@;
        let m = self.domain_count;
        proof {
            if self.round + 1 < self.rounds || self.domain < m {
                assert(self.round * m + self.domain <= self.rounds * m) by (nonlinear_arith)
                    requires
                        self.round < self.rounds,
                        self.domain <= m,
                ;
            }
        }
        match self.phase {
            Phase::Start => {
                self.phase = Phase::WarmingUp;
                Action::WarmUp
            },
            Phase::WarmingUp => {
                self.phase = Phase::WarmUpPause;
                Action::Pause(self.query_pause)
            },
            Phase::WarmUpPause => {
                let a = self.enter(0, 0);
                proof {
                    assert(self@.samples.len() == 0);
                }
                a
            },
            Phase::Probing => {
                match outcome {
                    None => {
                        let d = self.domain;
                        proof {
                            lemma_position_domain(v.round, m as nat, d as nat);
                            lemma_room_for_sample(v.round, m as nat, d as nat, v.rounds);
                        }
                        self.samples.push(QuerySample::TcpUnreachable(d));
                        let r = self.round;
                        let a = self.enter(r, d + 1);
                        proof {
                            assert(self@.samples.drop_last() =~= v.samples);
                            self.lemma_after_sample(v, d as nat);
                        }
                        a
                    },
                    Some(_) => {
                        self.phase = Phase::Resolving;
                        Action::Resolve(self.domain)
                    },
                }
            },
            Phase::Resolving => {
                let d = self.domain;
                let q = match outcome {
                    Some(t) => QuerySample::Latency(t),
                    None => QuerySample::ResolutionError(d),
                };
                proof {
                    lemma_position_domain(v.round, m as nat, d as nat);
                }
                self.samples.push(q);
                self.phase = Phase::QueryPause;
                proof {
                    assert(self@.samples.drop_last() =~= v.samples);
                    self.lemma_after_sample(v, d as nat);
                }
                Action::Pause(self.query_pause)
            },
            Phase::QueryPause => {
                let r = self.round;
                let d = self.domain;
                self.enter(r, d + 1)
            },
            Phase::RoundPause => {
                let r = self.round;
                proof {
                    assert((r + 1) * m == r * m + m) by (nonlinear_arith);
                }
                self.enter(r + 1, 0)
            },
            Phase::Done => Action::Finished,
        }
    }

    proof fn lemma_after_sample(&self, v: TesterView, d: nat)
        requires
            v.wf(),
            d < v.domain_count,
            self@.samples.len() == v.samples.len() + 1,
            self@.samples.drop_last() == v.samples,
            at_position(self@.samples.last(), v.samples.len() as int, v.domain_count),
            self@.domain_count == v.domain_count,
        ensures
            forall|k: int|
                0 <= k < self@.samples.len() ==> at_position(
                    #[trigger] self@.samples[k],
                    k,
                    self@.domain_count,
                ),
    {
        assert forall|k: int| 0 <= k < self@.samples.len() implies at_position(
            #[trigger] self@.samples[k],
            k,
            self@.domain_count,
        ) by {
            if k < v.samples.len() {
                assert(self@.samples[k] == v.samples[k]);
            }
        }
    }

    /// Whether every query of the plan has been made.
    pub fn is_finished(&self) -> (r: bool)
        ensures
            r == (self@.phase == Phase::Done),
    {
        self.phase == Phase::Done
    }

    /// The samples recorded so far, in the order the queries were made.
    pub fn samples(&self) -> (r: &Vec<QuerySample>)
        ensures
            r@ == self@.samples,
    {
        &self.samples
    }
}

/// Every failure a test records names one of the plan's domains.
pub proof fn lemma_samples_refer_within(v: TesterView)
    requires
        v.wf(),
    ensures
        samples_refer_within(v.samples, v.domain_count),
{
    assert forall|k: int| 0 <= k < v.samples.len() implies (#[trigger] v.samples[k]).refers_within(
        v.domain_count,
    ) by {
        assert(at_position(v.samples[k], k, v.domain_count));
    }
}

/// A finished test holds one sample for each (round, domain) pair of its
/// plan, and its summary counts each of them once, as a success or as a
/// failed domain.
pub proof fn lemma_every_query_counted(
    v: TesterView,
    r: ProviderSummary,
    name: Seq<char>,
    domains: Seq<Seq<char>>,
    timeout: u64,
)
    requires
        v.wf(),
        v.phase == Phase::Done,
        summarizes(r, name, v.samples, domains, timeout),
    ensures
        v.samples.len() == v.rounds * v.domain_count,
        r.attempted == v.rounds * v.domain_count,
        r.successful + r.failed_domains@.len() == v.rounds * v.domain_count,
{
    assert(v.round * v.domain_count + v.domain_count == v.rounds * v.domain_count)
        by (nonlinear_arith)
        requires
            v.round + 1 == v.rounds,
    ;
    lemma_labels_len(v.samples, domains);
}

proof fn lemma_room_for_sample(r: nat, m: nat, d: nat, rounds: nat)
    requires
        r < rounds,
        d < m,
        rounds * m <= usize::MAX,
    ensures
        r * m + d + 1 <= usize::MAX,
{
    assert(r * m + d + 1 <= rounds * m) by (nonlinear_arith)
        requires
            r < rounds,
            d < m,
    ;
}

} // verus!
