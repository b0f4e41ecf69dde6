//! Which response answers a request: the rounds of the policy, the preference
//! for the oldest server, the deadlines.

use std::cmp::Ordering;
use std::time::Duration;

use vstd::prelude::*;

use crate::client::CoreClient;
use crate::duration;
use crate::protocol::{RateLimitResult, RateLimitResultView};
use crate::request_policy;
use crate::request_policy::{RequestPolicy, RequestPolicyView, ScheduleView};

verus! {

/// The start of 2025 in seconds since the Unix epoch, from which server
/// identifiers count.
pub const SERVER_ID_EPOCH_S_2025: u64 = 1_735_689_600;

/// Server identifiers count this many per second.
pub const SERVER_IDS_PER_S: u64 = 0x80_0000;

/// When a server started, in seconds since the Unix epoch.
pub open spec fn server_start_s(server_id: u64) -> nat {
    (SERVER_ID_EPOCH_S_2025 + server_id / SERVER_IDS_PER_S) as nat
}

/// Whether one server is older than another: it started earlier, or in the
/// same second with a smaller identifier.
pub open spec fn older(left: u64, right: u64) -> bool {
    server_start_s(left) < server_start_s(right) || (server_start_s(left) == server_start_s(right)
        && left < right)
}

/// Server identifiers count 8388608 to the second, from the start of 2025 on.
pub proof fn lemma_start_of_a_server(server_id: u64, seconds: nat, count: nat)
    requires
        count < 8_388_608,
        server_id == seconds * 8_388_608 + count,
    ensures
        server_start_s(server_id) == 1_735_689_600 + seconds,
{
}

/// Servers are older in the order of their identifiers.
pub proof fn lemma_age_follows_identifiers(left: u64, right: u64)
    ensures
        older(left, right) <==> left < right,
{
}

impl CoreClient {
    /// When a server started, in seconds since the Unix epoch.
    pub fn server_start_s_from_id(server_id: u64) -> (start: u64)
        ensures
            start as nat == server_start_s(server_id),
    {
        SERVER_ID_EPOCH_S_2025 + server_id / SERVER_IDS_PER_S
    }

    /// Orders two servers by age, the older one first.
    pub fn compare_server_age(left: u64, right: u64) -> (order: Ordering)
        ensures
            match order {
                Ordering::Less => older(left, right),
                Ordering::Equal => left == right,
                Ordering::Greater => older(right, left),
            },
    {
        let left_start: u64 = CoreClient::server_start_s_from_id(left);
        let right_start: u64 = CoreClient::server_start_s_from_id(right);
        if left_start < right_start {
            Ordering::Less
        } else if left_start > right_start {
            Ordering::Greater
        } else if left < right {
            Ordering::Less
        } else if left > right {
            Ordering::Greater
        } else {
            Ordering::Equal
        }
    }
}

/// Whether one server is older than another.
pub fn is_older_server(left: u64, right: u64) -> (is_older: bool)
    ensures
        is_older == older(left, right),
{
    match CoreClient::compare_server_age(left, right) {
        Ordering::Less => true,
        Ordering::Equal => false,
        Ordering::Greater => false,
    }
}

/// Where a request stands.
#[derive(Debug, Clone, Copy, PartialEq, Eq, Structural)]
pub enum Stage {
    /// In the transmission round with this number.
    Round(u32),
    /// In the receive-only phase.
    Final,
    /// A response was selected, or the horizon is over.
    Ended,
}

/// What to do next about a request.
pub enum Step {
    /// Send to the servers that have not responded, then receive for this many
    /// milliseconds.
    Transmit { window_ms: u64 },
    /// Receive, without sending, for this many milliseconds.
    Listen { window_ms: u64 },
    /// Receive until the current deadline.
    KeepListening,
    /// Answer with this response.
    Select(RateLimitResult),
    /// Answer that no decision came in time.
    TimeOut,
    /// Nothing: the request is over.
    Ignore,
}

/// The content of a [`Step`].
pub ghost enum StepView {
    Transmit { window_ms: nat },
    Listen { window_ms: nat },
    KeepListening,
    Select(RateLimitResultView),
    TimeOut,
    Ignore,
}

impl View for Step {
    type V = StepView;

    open spec fn view(&self) -> StepView {
        match *self {
            Step::Transmit { window_ms } => StepView::Transmit { window_ms: window_ms as nat },
            Step::Listen { window_ms } => StepView::Listen { window_ms: window_ms as nat },
            Step::KeepListening => StepView::KeepListening,
            Step::Select(result) => StepView::Select(result@),
            Step::TimeOut => StepView::TimeOut,
            Step::Ignore => StepView::Ignore,
        }
    }
}

/// A request on its way through the policy.
pub struct PolicyRun {
    policy: RequestPolicy,
    oldest: Option<u64>,
    stage: Stage,
    best: Option<RateLimitResult>,
}

/// What a [`PolicyRun`] knows.
pub ghost struct RunView {
    /// The policy.
    pub policy: RequestPolicyView,
    /// The oldest server of the membership.
    pub oldest: Option<u64>,
    /// Where the request stands.
    pub stage: Stage,
    /// The response of the oldest responder so far.
    pub best: Option<RateLimitResultView>,
}

impl View for PolicyRun {
    type V = RunView;

    closed spec fn view(&self) -> RunView {
        RunView {
            policy: self.policy@,
            oldest: self.oldest,
            stage: self.stage,
            best: match self.best {
                Some(result) => Some(result@),
                None => None,
            },
        }
    }
}

impl RunView {
    /// A request that begins.
    pub open spec fn begun(policy: RequestPolicyView, oldest: Option<u64>) -> RunView {
        RunView { policy, oldest, stage: Stage::Round(0), best: None }
    }

    /// Whether the stage belongs to the policy. A response is only kept in the
    /// initial round, and only if it is not from the oldest server.
    pub open spec fn in_policy(self) -> bool {
        &&& self.policy.valid()
        &&& self.best matches Some(kept) ==> self.oldest != Some(kept.server_id)
        &&& self.stage matches Stage::Round(k) ==> k <= self.policy.replay_count
        &&& self.stage matches Stage::Round(k) ==> k > 0 ==> self.best is None
        &&& self.stage is Final ==> self.policy.final_receive_units > 0 && self.best is None
    }

    /// How long a transmission round lasts, in milliseconds.
    pub open spec fn round_ms(self, round: nat) -> nat {
        self.policy.unit_ms * self.policy.replay_gap.units(round)
    }

    /// How long the receive-only phase lasts, in milliseconds.
    pub open spec fn final_ms(self) -> nat {
        self.policy.unit_ms * self.policy.final_receive_units
    }

    /// The response of the older responder: the one so far, unless the new one
    /// is from an older server.
    pub open spec fn better(self, result: RateLimitResultView) -> RateLimitResultView {
        match self.best {
            Some(current) => if older(result.server_id, current.server_id) {
                result
            } else {
                current
            },
            None => result,
        }
    }

    /// A request that is over.
    pub open spec fn ended(self) -> RunView {
        RunView { stage: Stage::Ended, best: None, ..self }
    }

    /// What a valid response changes, and what follows.
    pub open spec fn after_response(self, result: RateLimitResultView) -> (RunView, StepView) {
        match self.stage {
            Stage::Round(round) => if self.oldest == Some(result.server_id) || round > 0 {
                (self.ended(), StepView::Select(self.better(result)))
            } else {
                (
                    RunView { best: Some(self.better(result)), ..self },
                    StepView::KeepListening,
                )
            },
            Stage::Final => (self.ended(), StepView::Select(result)),
            Stage::Ended => (self, StepView::Ignore),
        }
    }

    /// What a deadline changes, and what follows.
    pub open spec fn after_window(self) -> (RunView, StepView) {
        match self.stage {
            Stage::Round(round) => match self.best {
                Some(result) => (self.ended(), StepView::Select(result)),
                None => if round < self.policy.replay_count {
                    (
                        RunView { stage: Stage::Round((round + 1) as u32), ..self },
                        StepView::Transmit { window_ms: self.round_ms((round + 1) as nat) },
                    )
                } else if self.policy.final_receive_units > 0 {
                    (
                        RunView { stage: Stage::Final, ..self },
                        StepView::Listen { window_ms: self.final_ms() },
                    )
                } else {
                    (self.ended(), StepView::TimeOut)
                },
            },
            Stage::Final => (self.ended(), StepView::TimeOut),
            Stage::Ended => (self, StepView::Ignore),
        }
    }
}

/// A round is part of all the rounds.
proof fn lemma_round_within_total(schedule: ScheduleView, round: nat, count: nat)
    requires
        round < count,
    ensures
        schedule.units(round) <= schedule.total_units(count),
    decreases count,
{
    if round + 1 < count {
        lemma_round_within_total(schedule, round, (count - 1) as nat);
    }
}

/// Every window of a policy is within its horizon.
proof fn lemma_window_within_horizon(run: RunView, round: nat)
    requires
        run.policy.valid(),
        round <= run.policy.replay_count,
    ensures
        run.round_ms(round) <= u32::MAX,
        run.final_ms() <= u32::MAX,
        run.policy.unit_ms <= u32::MAX,
{
    let p = run.policy;
    let total = p.replay_gap.total_units(p.replay_count + 1);
    lemma_round_within_total(p.replay_gap, round, p.replay_count + 1);
    request_policy::lemma_schedule_grows_within_bound(p.replay_gap, round);
    let (u, b, f) = (p.unit_ms, p.replay_gap.units(round), p.final_receive_units);
    assert(u * b <= u * (total + f) && u * f <= u * (total + f) && u <= u * b)
        by (nonlinear_arith)
        requires
            1 <= b <= total,
            f >= 0,
            u >= 0,
    ;
}

impl PolicyRun {
    #[verifier::type_invariant]
    spec fn within_policy(self) -> bool {
        self@.in_policy()
    }

    /// Begins a request: it is to be sent to every server, and responses are
    /// awaited for the first round.
    pub fn begin(policy: RequestPolicy, oldest: Option<u64>) -> (begun: (PolicyRun, Step))
        ensures
            begun.0@ == RunView::begun(policy@, oldest),
            begun.1@ == (StepView::Transmit { window_ms: begun.0@.round_ms(0) }),
            begun.0@.in_policy(),
    {
        proof {
            use_type_invariant(&policy);
        }
        let run: PolicyRun = PolicyRun { policy, oldest, stage: Stage::Round(0), best: None };
        let window_ms: u64 = run.window_of_round(0);
        (run, Step::Transmit { window_ms })
    }

    /// How long a transmission round lasts, in milliseconds.
    fn window_of_round(&self, round: u32) -> (window_ms: u64)
        requires
            round <= self@.policy.replay_count,
        ensures
            window_ms as nat == self@.round_ms(round as nat),
    {
        proof {
            use_type_invariant(self);
            lemma_window_within_horizon(self@, round as nat);
        }
        match self.policy.replay_gap().units(round) {
            Ok(units) => {
                let unit_ms: u64 = self.policy.unit_ms();
                assert(unit_ms * units == self@.round_ms(round as nat));
                unit_ms * units as u64
            },
            Err(_) => 0,
        }
    }

    /// The stage of the request.
    pub fn stage(&self) -> (stage: Stage)
        ensures
            stage == self@.stage,
            self@.in_policy(),
    {
        proof {
            use_type_invariant(self);
        }
        self.stage
    }

    /// Whether `result` is to replace the response of the oldest responder.
    fn replaces(&self, server_id: u64) -> (replaces: bool)
        ensures
            replaces == (self@.best matches Some(current) ==> older(server_id, current.server_id)),
    {
        match &self.best {
            Some(current) => is_older_server(server_id, current.server_id),
            None => true,
        }
    }

    /// Takes a valid response in.
    pub fn on_response(self, result: RateLimitResult) -> (next: (PolicyRun, Step))
        ensures
            (next.0@, next.1@) == self@.after_response(result@),
            next.0@.in_policy(),
    {
        proof {
            use_type_invariant(&self);
        }
        match self.stage {
            Stage::Round(round) => {
                let replaces: bool = self.replaces(result.server_id);
                let from_oldest: bool = match self.oldest {
                    Some(id) => id == result.server_id,
                    None => false,
                };
                let kept: RateLimitResult = match self.best {
                    Some(current) => if replaces {
                        result
                    } else {
                        current
                    },
                    None => result,
                };
                if from_oldest || round > 0 {
                    let ended: PolicyRun = PolicyRun {
                        policy: self.policy,
                        oldest: self.oldest,
                        stage: Stage::Ended,
                        best: None,
                    };
                    (ended, Step::Select(kept))
                } else {
                    let listening: PolicyRun = PolicyRun {
                        policy: self.policy,
                        oldest: self.oldest,
                        stage: Stage::Round(round),
                        best: Some(kept),
                    };
                    (listening, Step::KeepListening)
                }
            },
            Stage::Final => {
                let ended: PolicyRun = PolicyRun {
                    policy: self.policy,
                    oldest: self.oldest,
                    stage: Stage::Ended,
                    best: None,
                };
                (ended, Step::Select(result))
            },
            Stage::Ended => (self, Step::Ignore),
        }
    }

    /// Takes the end of the current window in.
    pub fn on_window_end(self) -> (next: (PolicyRun, Step))
        ensures
            (next.0@, next.1@) == self@.after_window(),
            next.0@.in_policy(),
    {
        proof {
            use_type_invariant(&self);
        }
        let ended: PolicyRun = PolicyRun {
            policy: self.policy,
            oldest: self.oldest,
            stage: Stage::Ended,
            best: None,
        };
        match self.stage {
            Stage::Round(round) => match self.best {
                Some(result) => (ended, Step::Select(result)),
                None => if round < self.policy.replay_count() {
                    let run: PolicyRun = PolicyRun {
                        policy: self.policy,
                        oldest: self.oldest,
                        stage: Stage::Round(round + 1),
                        best: None,
                    };
                    let window_ms: u64 = run.window_of_round(round + 1);
                    (run, Step::Transmit { window_ms })
                } else if self.policy.final_receive_units() > 0 {
                    let run: PolicyRun = PolicyRun {
                        policy: self.policy,
                        oldest: self.oldest,
                        stage: Stage::Final,
                        best: None,
                    };
                    proof {
                        lemma_window_within_horizon(run@, 0);
                    }
                    let window_ms: u64 = self.policy.unit_ms() * (self.policy.final_receive_units()
                        as u64);
                    (run, Step::Listen { window_ms })
                } else {
                    (ended, Step::TimeOut)
                },
            },
            Stage::Final => (ended, Step::TimeOut),
            Stage::Ended => (self, Step::Ignore),
        }
    }
}

/// What comes of responses that arrive one after the other within one window:
/// where the request stands, and the response that was selected, if one was.
pub open spec fn heard(run: RunView, responses: Seq<RateLimitResultView>) -> (
    RunView,
    Option<RateLimitResultView>,
)
    decreases responses.len(),
{
    if responses.len() == 0 {
        (run, None)
    } else {
        match run.after_response(responses[0]) {
            (next, StepView::Select(result)) => (next, Some(result)),
            (next, _) => heard(next, responses.skip(1)),
        }
    }
}

/// The response of the oldest responder; of several from it, the first.
pub open spec fn of_oldest_responder(responses: Seq<RateLimitResultView>) -> Option<
    RateLimitResultView,
>
    decreases responses.len(),
{
    if responses.len() == 0 {
        None
    } else {
        match of_oldest_responder(responses.drop_last()) {
            Some(current) => if older(responses.last().server_id, current.server_id) {
                Some(responses.last())
            } else {
                Some(current)
            },
            None => Some(responses.last()),
        }
    }
}

/// The response of the oldest responder is one of the responses, no other is
/// from an older server, and none before it is from the same server.
pub proof fn lemma_of_oldest_responder(responses: Seq<RateLimitResultView>)
    requires
        responses.len() > 0,
    ensures
        of_oldest_responder(responses) matches Some(found) && exists|i: int|
            0 <= i < responses.len() && #[trigger] responses[i] == found && (forall|j: int|
                0 <= j < responses.len() ==> !older(
                    (#[trigger] responses[j]).server_id,
                    found.server_id,
                )) && (forall|j: int|
                0 <= j < i ==> (#[trigger] responses[j]).server_id != found.server_id),
    decreases responses.len(),
{
    let last = responses.last();
    let head = responses.drop_last();
    if head.len() == 0 {
        assert(responses[0] == last);
    } else {
        lemma_of_oldest_responder(head);
        let current = of_oldest_responder(head)->0;
        let i = choose|i: int|
            0 <= i < head.len() && #[trigger] head[i] == current && (forall|j: int|
                0 <= j < head.len() ==> !older(
                    (#[trigger] head[j]).server_id,
                    current.server_id,
                )) && (forall|j: int|
                0 <= j < i ==> (#[trigger] head[j]).server_id != current.server_id);
        assert(responses[i] == current);
        if older(last.server_id, current.server_id) {
            let n = responses.len() - 1;
            assert(responses[n] == last);
            assert forall|j: int| 0 <= j < responses.len() implies !older(
                (#[trigger] responses[j]).server_id,
                last.server_id,
            ) by {
                if j < n {
                    assert(head[j] == responses[j]);
                }
            }
            assert forall|j: int| 0 <= j < n implies (#[trigger] responses[j]).server_id
                != last.server_id by {
                assert(head[j] == responses[j]);
            }
        } else {
            assert forall|j: int| 0 <= j < responses.len() implies !older(
                (#[trigger] responses[j]).server_id,
                current.server_id,
            ) by {
                if j < responses.len() - 1 {
                    assert(head[j] == responses[j]);
                }
            }
            assert forall|j: int| 0 <= j < i implies (#[trigger] responses[j]).server_id
                != current.server_id by {
                assert(head[j] == responses[j]);
            }
        }
    }
}

/// Listening in the initial round, from any response kept so far.
proof fn lemma_oldest_wins_from(
    run: RunView,
    oldest: u64,
    responses: Seq<RateLimitResultView>,
    at: int,
)
    requires
        run.stage == Stage::Round(0),
        run.oldest == Some(oldest),
        run.best matches Some(current) ==> older(oldest, current.server_id),
        0 <= at < responses.len(),
        responses[at].server_id == oldest,
        forall|j: int| 0 <= j < at ==> older(oldest, (#[trigger] responses[j]).server_id),
    ensures
        heard(run, responses) == (run.ended(), Some(responses[at])),
    decreases at,
{
    if at > 0 {
        let next = run.after_response(responses[0]).0;
        let rest = responses.skip(1);
        assert(older(oldest, responses[0].server_id));
        assert forall|j: int| 0 <= j < at - 1 implies older(
            oldest,
            (#[trigger] rest[j]).server_id,
        ) by {
            assert(rest[j] == responses[j + 1]);
        }
        lemma_oldest_wins_from(next, oldest, rest, at - 1);
    }
}

/// In the initial round a response of the oldest server is selected as soon as
/// it arrives, whatever younger servers said before.
pub proof fn lemma_oldest_wins_at_once(
    policy: RequestPolicyView,
    oldest: u64,
    responses: Seq<RateLimitResultView>,
    at: int,
)
    requires
        0 <= at < responses.len(),
        responses[at].server_id == oldest,
        forall|j: int| 0 <= j < at ==> older(oldest, (#[trigger] responses[j]).server_id),
    ensures
        heard(RunView::begun(policy, Some(oldest)), responses).1 == Some(responses[at]),
{
    lemma_oldest_wins_from(RunView::begun(policy, Some(oldest)), oldest, responses, at);
}

/// The older of the response kept so far and the oldest of those that follow.
proof fn lemma_keeps_from(run: RunView, before: Seq<RateLimitResultView>, responses: Seq<
    RateLimitResultView,
>)
    requires
        run.stage == Stage::Round(0),
        run.best == of_oldest_responder(before),
        forall|j: int|
            0 <= j < responses.len() ==> run.oldest != Some((#[trigger] responses[j]).server_id),
    ensures
        heard(run, responses) == (
            RunView { best: of_oldest_responder(before + responses), ..run },
            None::<RateLimitResultView>,
        ),
    decreases responses.len(),
{
    if responses.len() == 0 {
        assert(before + responses =~= before);
    } else {
        let next = run.after_response(responses[0]).0;
        let rest = responses.skip(1);
        let grown = before.push(responses[0]);
        assert(grown.drop_last() =~= before);
        assert(next.best == of_oldest_responder(grown));
        assert forall|j: int| 0 <= j < rest.len() implies next.oldest != Some(
            (#[trigger] rest[j]).server_id,
        ) by {
            assert(rest[j] == responses[j + 1]);
        }
        lemma_keeps_from(next, grown, rest);
        assert(grown + rest =~= before + responses);
    }
}

/// If the oldest server is silent in the initial round, the round's deadline
/// selects the response of the oldest responder.
pub proof fn lemma_oldest_responder_wins_at_deadline(
    policy: RequestPolicyView,
    oldest: Option<u64>,
    responses: Seq<RateLimitResultView>,
)
    requires
        responses.len() > 0,
        forall|j: int|
            0 <= j < responses.len() ==> oldest != Some((#[trigger] responses[j]).server_id),
    ensures
        ({
            let (run, selected) = heard(RunView::begun(policy, oldest), responses);
            &&& selected is None
            &&& run.after_window().1 == StepView::Select(of_oldest_responder(responses)->0)
        }),
{
    let empty = Seq::<RateLimitResultView>::empty();
    lemma_keeps_from(RunView::begun(policy, oldest), empty, responses);
    assert(empty + responses =~= responses);
    lemma_of_oldest_responder(responses);
}

/// After the initial round, in a replay round or in the receive-only phase,
/// the first response is selected.
pub proof fn lemma_first_response_wins_later(run: RunView, responses: Seq<RateLimitResultView>)
    requires
        run.in_policy(),
        run.stage is Final || (run.stage matches Stage::Round(k) && k > 0),
        responses.len() > 0,
    ensures
        heard(run, responses).1 == Some(responses[0]),
{
}

/// Once a response was selected or the request timed out, neither responses
/// nor deadlines change anything.
pub proof fn lemma_over_is_over(run: RunView, responses: Seq<RateLimitResultView>)
    requires
        run.stage is Ended,
    ensures
        heard(run, responses) == (run, None::<RateLimitResultView>),
        run.after_window() == (run, StepView::Ignore),
    decreases responses.len(),
{
    if responses.len() > 0 {
        lemma_over_is_over(run, responses.skip(1));
    }
}

/// A selection ends the request.
pub proof fn lemma_selection_ends(run: RunView, responses: Seq<RateLimitResultView>)
    ensures
        heard(run, responses).1 is Some ==> heard(run, responses).0.stage is Ended,
        run.after_window().1 is Select ==> run.after_window().0.stage is Ended,
    decreases responses.len(),
{
    if responses.len() > 0 {
        lemma_selection_ends(run.after_response(responses[0]).0, responses.skip(1));
    }
}

/// How long the current window lasts, in milliseconds.
pub open spec fn window_ms(run: RunView) -> nat {
    match run.stage {
        Stage::Round(round) => run.round_ms(round as nat),
        Stage::Final => run.final_ms(),
        Stage::Ended => 0,
    }
}

/// Where a request stands after that many silent windows, and how long they
/// took in milliseconds.
pub open spec fn silence(run: RunView, windows: nat) -> (RunView, nat)
    decreases windows,
{
    if windows == 0 {
        (run, 0)
    } else {
        let (before, time) = silence(run, (windows - 1) as nat);
        (before.after_window().0, time + window_ms(before))
    }
}

/// The windows that a policy has.
pub open spec fn window_count(policy: RequestPolicyView) -> nat {
    if policy.final_receive_units > 0 {
        policy.replay_count + 2
    } else {
        policy.replay_count + 1
    }
}

/// After `round` silent rounds the request is in that round.
proof fn lemma_silent_rounds(policy: RequestPolicyView, oldest: Option<u64>, round: nat)
    requires
        policy.valid(),
        round <= policy.replay_count,
    ensures
        silence(RunView::begun(policy, oldest), round) == (
            RunView { policy, oldest, stage: Stage::Round(round as u32), best: None },
            policy.unit_ms * policy.replay_gap.total_units(round),
        ),
    decreases round,
{
    let u = policy.unit_ms;
    if round == 0 {
        assert(u * 0 == 0) by (nonlinear_arith);
    } else {
        let r = (round - 1) as nat;
        lemma_silent_rounds(policy, oldest, r);
        let (a, b) = (policy.replay_gap.total_units(r), policy.replay_gap.units(r));
        assert(u * a + u * b == u * (a + b)) by (nonlinear_arith);
    }
}

/// A request that hears nothing times out exactly at its horizon, and not in
/// any window before the last.
pub proof fn lemma_silence_times_out_at_horizon(policy: RequestPolicyView, oldest: Option<u64>)
    requires
        policy.valid(),
    ensures
        ({
            let begun = RunView::begun(policy, oldest);
            let last = (window_count(policy) - 1) as nat;
            &&& silence(begun, last).0.after_window().1 == StepView::TimeOut
            &&& silence(begun, window_count(policy)).0.stage is Ended
            &&& silence(begun, window_count(policy)).1 == policy.horizon()
            &&& forall|n: nat|
                n < last ==> (#[trigger] silence(begun, n)).0.after_window().1 !is TimeOut
        }),
{
    let begun = RunView::begun(policy, oldest);
    let n = policy.replay_count;
    let (u, f) = (policy.unit_ms, policy.final_receive_units);
    lemma_silent_rounds(policy, oldest, n);
    let (a, b) = (policy.replay_gap.total_units(n), policy.replay_gap.units(n));
    assert(policy.replay_gap.total_units(n + 1) == a + b);
    assert(u * a + u * b + u * f == u * (a + b + f)) by (nonlinear_arith);
    if f == 0 {
        assert(u * f == 0) by (nonlinear_arith)
            requires
                f == 0,
        ;
    }
    let rounds_over = silence(begun, n + 1);
    assert(rounds_over.1 == u * a + u * b);
    assert forall|m: nat| m < window_count(policy) - 1 implies (#[trigger] silence(
        begun,
        m,
    )).0.after_window().1 !is TimeOut by {
        lemma_silent_rounds(policy, oldest, m);
    }
    if f > 0 {
        assert(silence(begun, n + 2).1 == rounds_over.1 + u * f);
    }
}

/// A request that hears nothing is sent again at the start of every replay
/// round, the last one as well as the first, and each round lasts as long as
/// the schedule says.
pub proof fn lemma_every_replay_round_sends(
    policy: RequestPolicyView,
    oldest: Option<u64>,
    round: nat,
)
    requires
        policy.valid(),
        1 <= round <= policy.replay_count,
    ensures
        ({
            let begun = RunView::begun(policy, oldest);
            let (before, after) = (silence(begun, (round - 1) as nat).0, silence(begun, round).0);
            &&& before.after_window().1 == (StepView::Transmit {
                window_ms: policy.unit_ms * policy.replay_gap.units(round),
            })
            &&& before.after_window().0 == after
            &&& after.stage == Stage::Round(round as u32)
            &&& after.best is None
            &&& after.policy == policy
            &&& after.oldest == oldest
        }),
{
    lemma_silent_rounds(policy, oldest, (round - 1) as nat);
    lemma_silent_rounds(policy, oldest, round);
}

/// A request that hears nothing is sent exactly once more than it has replays:
/// the first send opens the first window, and of the deadlines exactly as many
/// as there are replays lead to a send. It listens without sending exactly
/// once, behind the last replay round, if the policy has a final phase, and for
/// as long as that lasts.
pub proof fn lemma_silent_request_sends_and_listens(policy: RequestPolicyView, oldest: Option<u64>)
    requires
        policy.valid(),
    ensures
        ({
            let begun = RunView::begun(policy, oldest);
            let n = policy.replay_count;
            let end = silence(begun, n).0.after_window().1;
            &&& begun.stage == Stage::Round(0)
            &&& begun.best is None
            &&& begun.policy == policy
            &&& begun.oldest == oldest
            &&& begun.round_ms(0) == policy.unit_ms * policy.replay_gap.units(0)
            &&& forall|k: nat|
                (#[trigger] silence(begun, k)).0.after_window().1 is Transmit <==> k < n
            &&& forall|k: nat|
                (#[trigger] silence(begun, k)).0.after_window().1 is Listen <==> k == n
                    && policy.final_receive_units > 0
            &&& policy.final_receive_units > 0 ==> end == (StepView::Listen {
                window_ms: policy.unit_ms * policy.final_receive_units,
            })
            &&& policy.final_receive_units == 0 ==> end == StepView::TimeOut
        }),
{
    let begun = RunView::begun(policy, oldest);
    let n = policy.replay_count;
    lemma_silent_rounds(policy, oldest, n);
    let rounds_over = silence(begun, n + 1).0;
    assert(rounds_over.stage is Final || rounds_over.stage is Ended);
    assert forall|k: nat| true implies ({
        &&& (#[trigger] silence(begun, k)).0.after_window().1 is Transmit <==> k < n
        &&& silence(begun, k).0.after_window().1 is Listen <==> k == n
            && policy.final_receive_units > 0
    }) by {
        if k <= n {
            lemma_silent_rounds(policy, oldest, k);
        } else {
            lemma_no_sends_behind_rounds(rounds_over, (k - (n + 1)) as nat);
            lemma_silence_adds_up(begun, n + 1, (k - (n + 1)) as nat);
        }
    }
}

/// Silent windows one after the other.
proof fn lemma_silence_adds_up(run: RunView, a: nat, b: nat)
    ensures
        silence(run, a + b).0 == silence(silence(run, a).0, b).0,
    decreases b,
{
    if b > 0 {
        lemma_silence_adds_up(run, a, (b - 1) as nat);
    }
}

/// Behind the transmission rounds, silence leads to no send and no listening.
proof fn lemma_no_sends_behind_rounds(run: RunView, windows: nat)
    requires
        run.stage is Final || run.stage is Ended,
    ensures
        silence(run, windows).0.stage is Final || silence(run, windows).0.stage is Ended,
        silence(run, windows).0.after_window().1 !is Transmit,
        silence(run, windows).0.after_window().1 !is Listen,
    decreases windows,
{
    if windows > 0 {
        lemma_no_sends_behind_rounds(run, (windows - 1) as nat);
    }
}

/// A response that is not an answer yet only changes which response is kept:
/// the request stays in its round, under its policy.
pub proof fn lemma_kept_response_changes_nothing_else(run: RunView, result: RateLimitResultView)
    requires
        run.after_response(result).1 == StepView::KeepListening,
    ensures
        run.stage == Stage::Round(0),
        run.oldest != Some(result.server_id),
        ({
            let next = run.after_response(result).0;
            &&& next.stage == run.stage
            &&& next.policy == run.policy
            &&& next.oldest == run.oldest
            &&& next.best == Some(result) || next.best == run.best && run.best is Some
        }),
{
}

/// A step and its content say the same.
pub proof fn lemma_step_content(step: Step)
    ensures
        match step {
            Step::Transmit { window_ms } => step@ matches StepView::Transmit { window_ms: w } && w
                == window_ms,
            Step::Listen { window_ms } => step@ matches StepView::Listen { window_ms: w } && w
                == window_ms,
            Step::KeepListening => step@ is KeepListening,
            Step::Select(result) => step@ == StepView::Select(result@),
            Step::TimeOut => step@ is TimeOut,
            Step::Ignore => step@ is Ignore,
        },
{
}

/// How long a request may still wait, in milliseconds: the current window and
/// those behind it.
pub open spec fn remaining_ms(run: RunView) -> nat {
    let p = run.policy;
    match run.stage {
        Stage::Round(round) => p.unit_ms * ((p.replay_gap.total_units(p.replay_count + 1)
            - p.replay_gap.total_units(round as nat)) as nat + p.final_receive_units),
        Stage::Final => run.final_ms(),
        Stage::Ended => 0,
    }
}

/// More rounds take no less time.
proof fn lemma_total_grows(schedule: ScheduleView, a: nat, b: nat)
    requires
        a <= b,
    ensures
        schedule.total_units(a) <= schedule.total_units(b),
    decreases b - a,
{
    if a < b {
        lemma_total_grows(schedule, a, (b - 1) as nat);
    }
}

/// A deadline uses its window up; a response takes no time.
proof fn lemma_time_is_used_up(run: RunView, result: RateLimitResultView)
    requires
        run.in_policy(),
    ensures
        run.after_window().0.in_policy(),
        run.after_response(result).0.in_policy(),
        run.stage !is Ended ==> window_ms(run) > 0,
        window_ms(run) <= remaining_ms(run),
        remaining_ms(run.after_window().0) + window_ms(run) <= remaining_ms(run),
        remaining_ms(run.after_response(result).0) <= remaining_ms(run),
{
    let p = run.policy;
    let (u, f) = (p.unit_ms, p.final_receive_units);
    match run.stage {
        Stage::Round(round) => {
            let k = round as nat;
            let (a, b) = (p.replay_gap.total_units(k), p.replay_gap.units(k));
            let all = p.replay_gap.total_units(p.replay_count + 1);
            assert(p.replay_gap.total_units(k + 1) == a + b);
            lemma_total_grows(p.replay_gap, k + 1, p.replay_count + 1);
            request_policy::lemma_schedule_grows_within_bound(p.replay_gap, k);
            let rest = (all - (a + b)) as nat;
            assert(u * (rest + b + f) == u * (rest + f) + u * b && u * b > 0 && u * f <= u * (rest
                + f)) by (nonlinear_arith)
                requires
                    u > 0,
                    b > 0,
                    rest >= 0,
                    f >= 0,
            ;
            assert((all - a) as nat + f == rest + b + f);
        },
        Stage::Final => {
            assert(u * f > 0) by (nonlinear_arith)
                requires
                    u > 0,
                    f > 0,
            ;
        },
        Stage::Ended => {},
    }
}

/// Where a request stands after responses and deadlines in any order, a
/// deadline given as no response, and how long its windows took together, in
/// milliseconds.
pub open spec fn after_events(run: RunView, events: Seq<Option<RateLimitResultView>>) -> (
    RunView,
    nat,
)
    decreases events.len(),
{
    if events.len() == 0 {
        (run, 0)
    } else {
        let (before, time) = after_events(run, events.drop_last());
        match events.last() {
            Some(result) => (before.after_response(result).0, time),
            None => (before.after_window().0, time + window_ms(before)),
        }
    }
}

/// Whatever comes in, and in whatever order, the windows of a request take no
/// longer than its horizon, and once they have taken that long, the request is
/// over.
pub proof fn lemma_request_ends_within_horizon(
    policy: RequestPolicyView,
    oldest: Option<u64>,
    events: Seq<Option<RateLimitResultView>>,
)
    requires
        policy.valid(),
    ensures
        ({
            let (run, time) = after_events(RunView::begun(policy, oldest), events);
            &&& run.in_policy()
            &&& time + remaining_ms(run) <= policy.horizon()
            &&& time == policy.horizon() ==> run.stage is Ended
        }),
    decreases events.len(),
{
    let begun = RunView::begun(policy, oldest);
    let (run, time) = after_events(begun, events);
    if events.len() > 0 {
        lemma_request_ends_within_horizon(policy, oldest, events.drop_last());
        let before = after_events(begun, events.drop_last()).0;
        match events.last() {
            Some(result) => lemma_time_is_used_up(before, result),
            None => lemma_time_is_used_up(before, arbitrary()),
        }
    }
    lemma_time_is_used_up(run, arbitrary());
}

/// Whether the request is to be delivered to the servers that have not
/// responded, before the selected response is returned: the policy asks for it,
/// and the servers still remember the request.
pub open spec fn completion_wanted(policy: RequestPolicyView, elapsed: Duration) -> bool {
    policy.completion_delivery && duration::duration_nanos(elapsed) < policy.horizon() * 1_000_000
}

/// Completion delivery happens if the policy asks for it and the horizon of the
/// request is not over, to the nanosecond; never otherwise.
pub proof fn lemma_completion_ends_at_the_horizon(policy: RequestPolicyView, elapsed: Duration)
    ensures
        !policy.completion_delivery ==> !completion_wanted(policy, elapsed),
        duration::duration_nanos(elapsed) >= policy.horizon() * 1_000_000 ==> !completion_wanted(
            policy,
            elapsed,
        ),
        policy.completion_delivery && duration::duration_nanos(elapsed) < policy.horizon()
            * 1_000_000 ==> completion_wanted(policy, elapsed),
{
}

impl CoreClient {
    /// Whether the request is to be delivered to the servers that have not
    /// responded, this long after it began.
    pub fn completion_due(&self, elapsed: Duration) -> (due: bool)
        ensures
            due == completion_wanted(self@.request_policy, elapsed),
    {
        let horizon_nanos: u128 = self.dedup_ttl_ms() as u128 * 1_000_000;
        self.request_policy().completion_delivery() && elapsed.as_nanos() < horizon_nanos
    }
}

} // verus!
