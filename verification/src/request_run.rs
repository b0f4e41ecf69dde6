//! One request from its first send to its answer.

use std::time::Duration;

use vstd::prelude::*;

use crate::client::{CoreClient, CoreClientView};
use crate::config::PeerAddr;
use crate::delivery;
use crate::delivery::{Responders, RespondersView, ServerBook};
use crate::discovery;
use crate::discovery::{ResolvedTargets, ServerEndpoint};
use crate::protocol::{RateLimitResult, RateLimitResultView};
use crate::selection;
use crate::selection::{PolicyRun, RunView, Step, StepView};

verus! {

/// What to do next about a request.
pub enum Action {
    /// Send the packet to these addresses, then receive for this many
    /// milliseconds.
    Transmit { targets: Vec<PeerAddr>, window_ms: u64 },
    /// Receive, without sending, for this many milliseconds.
    Listen { window_ms: u64 },
    /// Receive until the current deadline.
    KeepListening,
    /// Answer with this response.
    Answer(RateLimitResult),
    /// Answer that no decision came in time.
    TimeOut,
    /// Nothing: the request is over.
    Ignore,
}

/// The content of an [`Action`].
pub ghost enum ActionView {
    Transmit { targets: Seq<PeerAddr>, window_ms: nat },
    Listen { window_ms: nat },
    KeepListening,
    Answer(RateLimitResultView),
    TimeOut,
    Ignore,
}

impl View for Action {
    type V = ActionView;

    open spec fn view(&self) -> ActionView {
        match *self {
            Action::Transmit { targets, window_ms } => ActionView::Transmit {
                targets: targets@,
                window_ms: window_ms as nat,
            },
            Action::Listen { window_ms } => ActionView::Listen { window_ms: window_ms as nat },
            Action::KeepListening => ActionView::KeepListening,
            Action::Answer(result) => ActionView::Answer(result@),
            Action::TimeOut => ActionView::TimeOut,
            Action::Ignore => ActionView::Ignore,
        }
    }
}

/// A request under way.
pub struct RequestRun<'a> {
    client: &'a CoreClient,
    resolved: ResolvedTargets,
    seen: Responders,
    run: PolicyRun,
}

/// What a [`RequestRun`] knows.
pub ghost struct RequestRunView {
    /// The setup of the client.
    pub setup: CoreClientView,
    /// The membership when the request began.
    pub membership: Seq<ServerEndpoint>,
    /// Who has responded.
    pub seen: RespondersView,
    /// Where the policy stands.
    pub run: RunView,
}

impl<'a> View for RequestRun<'a> {
    type V = RequestRunView;

    closed spec fn view(&self) -> RequestRunView {
        RequestRunView {
            setup: self.client@,
            membership: self.resolved@,
            seen: self.seen@,
            run: self.run@,
        }
    }
}

impl RequestRunView {
    /// Whether the request is carried out under the client's policy, with the
    /// oldest member preferred, and only responses of members kept.
    pub open spec fn well_formed(self) -> bool {
        let ids = discovery::known_ids(self.membership);
        &&& self.run.policy == self.setup.request_policy
        &&& self.run.in_policy()
        &&& discovery::is_oldest(ids, self.run.oldest)
        &&& self.run.best matches Some(kept) ==> ids.is_empty() || ids.contains(kept.server_id)
    }

    /// Where the request still has to be sent.
    pub open spec fn missing(self) -> Seq<PeerAddr> {
        delivery::missing(self.membership, self.membership, self.seen)
    }

    /// What a step of the policy means for the request.
    pub open spec fn action_of(self, step: StepView) -> ActionView {
        match step {
            StepView::Transmit { window_ms } => ActionView::Transmit {
                targets: self.missing(),
                window_ms,
            },
            StepView::Listen { window_ms } => ActionView::Listen { window_ms },
            StepView::KeepListening => ActionView::KeepListening,
            StepView::Select(result) => ActionView::Answer(result),
            StepView::TimeOut => ActionView::TimeOut,
            StepView::Ignore => ActionView::Ignore,
        }
    }

    /// What a packet changes, and what follows: a response that counts moves
    /// the policy, any other packet changes nothing.
    pub open spec fn after_packet(self, data: Seq<u8>, addr: PeerAddr) -> (
        RequestRunView,
        ActionView,
    ) {
        match delivery::accepted(self.setup, self.membership, data) {
            Some(result) => {
                let (run, step) = self.run.after_response(result);
                let next = RequestRunView {
                    seen: self.seen.with(result.server_id, addr),
                    run,
                    ..self
                };
                (next, next.action_of(step))
            },
            None => (self, ActionView::KeepListening),
        }
    }

    /// What a deadline changes, and what follows.
    pub open spec fn after_deadline(self) -> (RequestRunView, ActionView) {
        let (run, step) = self.run.after_window();
        let next = RequestRunView { run, ..self };
        (next, next.action_of(step))
    }
}

impl<'a> RequestRun<'a> {
    #[verifier::type_invariant]
    spec fn consistent(self) -> bool {
        self@.well_formed()
    }

    /// Begins a request: it goes to every address of the membership.
    pub fn begin(client: &'a CoreClient, resolved: ResolvedTargets) -> (begun: (
        RequestRun<'a>,
        Action,
    ))
        ensures
            begun.0@.setup == client@,
            begun.0@.membership == resolved@,
            begun.0@.seen == (RespondersView { server_ids: Set::empty(), addrs: Set::empty() }),
            begun.0@.run == RunView::begun(client@.request_policy, begun.0@.run.oldest),
            begun.0@.well_formed(),
            begun.1@ == (ActionView::Transmit {
                targets: Seq::new(resolved@.len(), |i: int| resolved@[i].addr),
                window_ms: begun.0@.run.round_ms(0),
            }),
    {
        let (run, step) = PolicyRun::begin(client.request_policy(), resolved.oldest_server_id());
        let seen: Responders = Responders::new();
        let request: RequestRun<'a> = RequestRun { client, resolved, seen, run };
        let action: Action = request.action_of(step);
        proof {
            delivery::lemma_first_send_reaches_everyone(request@.membership, request@.membership);
        }
        (request, action)
    }

    /// What a step of the policy means for the request.
    fn action_of(&self, step: Step) -> (action: Action)
        ensures
            action@ == self@.action_of(step@),
    {
        match step {
            Step::Transmit { window_ms } => Action::Transmit {
                targets: CoreClient::missing_targets(&self.resolved, &self.seen),
                window_ms,
            },
            Step::Listen { window_ms } => Action::Listen { window_ms },
            Step::KeepListening => Action::KeepListening,
            Step::Select(result) => Action::Answer(result),
            Step::TimeOut => Action::TimeOut,
            Step::Ignore => Action::Ignore,
        }
    }

    /// Takes a packet in that came from `addr`.
    pub fn on_packet(self, data: &[u8], addr: PeerAddr, book: &mut ServerBook, now_ms: u64) -> (
    next: (RequestRun<'a>, Action))
        ensures
            (next.0@, next.1@) == self@.after_packet(data@, addr),
            next.0@.well_formed(),
            final(book)@ == match delivery::accepted(self@.setup, self@.membership, data@) {
                Some(result) => delivery::with_response(old(book)@, result.server_id, now_ms),
                None => old(book)@,
            },
    {
        proof {
            use_type_invariant(&self);
        }
        let client: &'a CoreClient = self.client;
        let resolved: ResolvedTargets = self.resolved;
        let mut seen: Responders = self.seen;
        let run: PolicyRun = self.run;
        match client.accept_policy_response(data, addr, &resolved, &mut seen, book, now_ms) {
            Some(result) => {
                proof {
                    delivery::lemma_accepted_is_known(self@.setup, self@.membership, data@);
                }
                let (run, step) = run.on_response(result);
                let next: RequestRun<'a> = RequestRun { client, resolved, seen, run };
                let action: Action = next.action_of(step);
                (next, action)
            },
            None => {
                let same: RequestRun<'a> = RequestRun { client, resolved, seen, run };
                (same, Action::KeepListening)
            },
        }
    }

    /// Takes the end of the current window in.
    pub fn on_deadline(self) -> (next: (RequestRun<'a>, Action))
        ensures
            (next.0@, next.1@) == self@.after_deadline(),
            next.0@.well_formed(),
    {
        proof {
            use_type_invariant(&self);
        }
        let (run, step) = self.run.on_window_end();
        let next: RequestRun<'a> = RequestRun {
            client: self.client,
            resolved: self.resolved,
            seen: self.seen,
            run,
        };
        let action: Action = next.action_of(step);
        (next, action)
    }

    /// Where the packet goes once more before the answer is returned, this
    /// long after the request began: nowhere if completion delivery is off or
    /// the deduplication lifetime is over.
    pub fn completion_targets(&self, elapsed: Duration) -> (targets: Vec<PeerAddr>)
        ensures
            targets@ == (if selection::completion_wanted(self@.setup.request_policy, elapsed) {
                self@.missing()
            } else {
                Seq::empty()
            }),
    {
        if self.client.completion_due(elapsed) {
            CoreClient::missing_targets(&self.resolved, &self.seen)
        } else {
            Vec::new()
        }
    }

    /// The server behind an address of the membership.
    pub fn server_at(&self, addr: PeerAddr) -> (server_id: Option<u64>)
        ensures
            server_id == discovery::server_at(self@.membership, addr),
    {
        self.resolved.server_at(addr)
    }
}

/// What comes of packets that arrive one after the other within one window:
/// where the request stands, and the answer, if there is one.
pub open spec fn taken_in(request: RequestRunView, packets: Seq<(Seq<u8>, PeerAddr)>) -> (
    RequestRunView,
    Option<RateLimitResultView>,
)
    decreases packets.len(),
{
    if packets.len() == 0 {
        (request, None)
    } else {
        match request.after_packet(packets[0].0, packets[0].1) {
            (next, ActionView::Answer(result)) => (next, Some(result)),
            (next, _) => taken_in(next, packets.skip(1)),
        }
    }
}

/// The responses that count among packets, in the order of their arrival.
pub open spec fn responses_among(
    setup: CoreClientView,
    membership: Seq<ServerEndpoint>,
    packets: Seq<(Seq<u8>, PeerAddr)>,
) -> Seq<RateLimitResultView>
    decreases packets.len(),
{
    if packets.len() == 0 {
        Seq::empty()
    } else {
        let rest = responses_among(setup, membership, packets.skip(1));
        match delivery::accepted(setup, membership, packets[0].0) {
            Some(result) => seq![result] + rest,
            None => rest,
        }
    }
}

/// The answer depends on the responses that count and on nothing else: packets
/// are selected from as their responses are.
pub proof fn lemma_packets_are_selected_from(
    request: RequestRunView,
    packets: Seq<(Seq<u8>, PeerAddr)>,
)
    ensures
        ({
            let responses = responses_among(request.setup, request.membership, packets);
            &&& taken_in(request, packets).0.run == selection::heard(request.run, responses).0
            &&& taken_in(request, packets).1 == selection::heard(request.run, responses).1
        }),
    decreases packets.len(),
{
    if packets.len() > 0 {
        let (setup, membership) = (request.setup, request.membership);
        let rest = packets.skip(1);
        let next = request.after_packet(packets[0].0, packets[0].1).0;
        lemma_packets_are_selected_from(next, rest);
        let responses = responses_among(setup, membership, packets);
        if let Some(result) = delivery::accepted(setup, membership, packets[0].0) {
            assert(responses[0] == result);
            assert(responses.skip(1) =~= responses_among(setup, membership, rest));
        }
    }
}

/// The answer to a request is a response of a member that was taken in while
/// the request was under way: the one just taken in, or the one kept from the
/// initial round.
pub proof fn lemma_answer_was_received(request: RequestRunView, data: Seq<u8>, addr: PeerAddr)
    ensures
        request.after_packet(data, addr).1 matches ActionView::Answer(result) ==> {
            ||| delivery::accepted(request.setup, request.membership, data) == Some(result)
            ||| request.run.best == Some(result)
        },
        request.after_deadline().1 matches ActionView::Answer(result) ==> request.run.best == Some(
            result,
        ),
{
}

/// A request works with the membership and the setup that it began with: no
/// packet and no deadline changes them.
pub proof fn lemma_membership_is_a_snapshot(
    request: RequestRunView,
    packets: Seq<(Seq<u8>, PeerAddr)>,
)
    ensures
        taken_in(request, packets).0.membership == request.membership,
        taken_in(request, packets).0.setup == request.setup,
        request.after_deadline().0.membership == request.membership,
        request.after_deadline().0.setup == request.setup,
    decreases packets.len(),
{
    if packets.len() > 0 {
        let next = request.after_packet(packets[0].0, packets[0].1).0;
        lemma_membership_is_a_snapshot(next, packets.skip(1));
    }
}

/// Where a request stands after that many deadlines without a packet.
pub open spec fn unanswered(request: RequestRunView, deadlines: nat) -> RequestRunView
    decreases deadlines,
{
    if deadlines == 0 {
        request
    } else {
        unanswered(request, (deadlines - 1) as nat).after_deadline().0
    }
}

/// Without a packet, only the policy moves.
proof fn lemma_unanswered(request: RequestRunView, deadlines: nat)
    ensures
        unanswered(request, deadlines) == (RequestRunView {
            run: selection::silence(request.run, deadlines).0,
            ..request
        }),
    decreases deadlines,
{
    if deadlines > 0 {
        lemma_unanswered(request, (deadlines - 1) as nat);
    }
}

/// As long as nobody responds, every replay round begins by sending the request
/// to every address of the membership, in order, and then receives for as long
/// as the schedule says. Behind the rounds the request is only listened for, if
/// the policy has a final phase, and then it times out.
pub proof fn lemma_silent_members_get_every_replay(request: RequestRunView, round: nat)
    requires
        request.setup.request_policy.valid(),
        request.run == RunView::begun(request.setup.request_policy, request.run.oldest),
        request.seen.server_ids == Set::<u64>::empty(),
        request.seen.addrs == Set::<PeerAddr>::empty(),
    ensures
        ({
            let policy = request.setup.request_policy;
            let step = unanswered(request, (round - 1) as nat).after_deadline().1;
            &&& 1 <= round <= policy.replay_count ==> step == (ActionView::Transmit {
                targets: Seq::new(request.membership.len(), |i: int| request.membership[i].addr),
                window_ms: policy.unit_ms * policy.replay_gap.units(round),
            })
            &&& round == policy.replay_count + 1 && policy.final_receive_units > 0 ==> step == (
            ActionView::Listen { window_ms: policy.unit_ms * policy.final_receive_units })
            &&& round == policy.replay_count + 1 && policy.final_receive_units == 0 ==> step
                == ActionView::TimeOut
            &&& round == policy.replay_count + 2 && policy.final_receive_units > 0 ==> step
                == ActionView::TimeOut
        }),
{
    let policy = request.setup.request_policy;
    let oldest = request.run.oldest;
    if round >= 1 {
        lemma_unanswered(request, (round - 1) as nat);
        delivery::lemma_first_send_reaches_everyone(request.membership, request.membership);
        selection::lemma_silent_request_sends_and_listens(policy, oldest);
        selection::lemma_silence_times_out_at_horizon(policy, oldest);
        if round <= policy.replay_count {
            selection::lemma_every_replay_round_sends(policy, oldest, round);
        }
    }
}

/// What is done about a request is what its policy says: it sends, listens,
/// answers, times out or does nothing exactly when the policy does, for as long
/// and with the response that the policy says, and it sends to those who have
/// not responded, whoever responded last among those who have.
pub proof fn lemma_requests_do_what_the_policy_says(
    request: RequestRunView,
    data: Seq<u8>,
    addr: PeerAddr,
)
    ensures
        ({
            let (next, action) = request.after_deadline();
            let (run, step) = request.run.after_window();
            &&& next.run == run
            &&& next.seen == request.seen
            &&& match step {
                StepView::Transmit { window_ms } => action == (ActionView::Transmit {
                    targets: request.missing(),
                    window_ms,
                }),
                StepView::Listen { window_ms } => action == (ActionView::Listen { window_ms }),
                StepView::KeepListening => action is KeepListening,
                StepView::Select(result) => action == ActionView::Answer(result),
                StepView::TimeOut => action is TimeOut,
                StepView::Ignore => action is Ignore,
            }
        }),
        delivery::accepted(request.setup, request.membership, data) matches Some(result) ==> {
            let (next, action) = request.after_packet(data, addr);
            let (run, step) = request.run.after_response(result);
            &&& next.run == run
            &&& next.seen.server_ids == request.seen.server_ids.insert(result.server_id)
            &&& next.seen.addrs == request.seen.addrs.insert(addr)
            &&& step is KeepListening ==> action is KeepListening
            &&& step is Ignore ==> action is Ignore
            &&& step matches StepView::Select(chosen) ==> action == ActionView::Answer(chosen)
        },
{
}

/// What has happened to a request: a packet with the address that it came from,
/// or a deadline.
pub open spec fn after_all(
    request: RequestRunView,
    events: Seq<Option<(Seq<u8>, PeerAddr)>>,
) -> RequestRunView
    decreases events.len(),
{
    if events.len() == 0 {
        request
    } else {
        let before = after_all(request, events.drop_last());
        match events.last() {
            Some((data, addr)) => before.after_packet(data, addr).0,
            None => before.after_deadline().0,
        }
    }
}

/// Whether an event is a valid response of the server behind an address.
pub open spec fn responds_for(
    setup: CoreClientView,
    membership: Seq<ServerEndpoint>,
    addr: PeerAddr,
    event: Option<(Seq<u8>, PeerAddr)>,
) -> bool {
    match event {
        Some((data, from)) => match delivery::accepted(setup, membership, data) {
            Some(result) => match discovery::server_at(membership, addr) {
                Some(id) => result.server_id == id,
                None => from == addr,
            },
            None => false,
        },
        None => false,
    }
}

/// Who has responded is whose valid responses came in.
proof fn lemma_responders_so_far(
    request: RequestRunView,
    events: Seq<Option<(Seq<u8>, PeerAddr)>>,
    addr: PeerAddr,
)
    requires
        request.seen.server_ids == Set::<u64>::empty(),
        request.seen.addrs == Set::<PeerAddr>::empty(),
    ensures
        after_all(request, events).membership == request.membership,
        after_all(request, events).setup == request.setup,
        after_all(request, events).seen.has(request.membership, addr) <==> exists|i: int|
            0 <= i < events.len() && responds_for(
                request.setup,
                request.membership,
                addr,
                #[trigger] events[i],
            ),
    decreases events.len(),
{
    if events.len() > 0 {
        let head = events.drop_last();
        let (setup, membership) = (request.setup, request.membership);
        lemma_responders_so_far(request, head, addr);
        assert(forall|i: int| 0 <= i < head.len() ==> #[trigger] events[i] == head[i]);
        assert(events[events.len() - 1] == events.last());
        if after_all(request, head).seen.has(membership, addr) {
            let i = choose|i: int|
                0 <= i < head.len() && responds_for(setup, membership, addr, #[trigger] head[i]);
            assert(responds_for(setup, membership, addr, events[i]));
        }
        if responds_for(setup, membership, addr, events.last()) {
            assert(responds_for(setup, membership, addr, events[events.len() - 1]));
        }
    }
}

/// Whatever has happened to a request, it still has to be sent to exactly those
/// addresses of the membership whose server has not responded: no valid
/// response of that server has come in since the request began. Replays and
/// completion delivery go there and nowhere else.
pub proof fn lemma_sent_again_until_answered(
    request: RequestRunView,
    events: Seq<Option<(Seq<u8>, PeerAddr)>>,
    addr: PeerAddr,
)
    requires
        request.seen.server_ids == Set::<u64>::empty(),
        request.seen.addrs == Set::<PeerAddr>::empty(),
    ensures
        after_all(request, events).missing().contains(addr) <==> {
            &&& exists|i: int|
                0 <= i < request.membership.len() && (#[trigger] request.membership[i]).addr
                    == addr
            &&& forall|i: int|
                0 <= i < events.len() ==> !responds_for(
                    request.setup,
                    request.membership,
                    addr,
                    #[trigger] events[i],
                )
        },
{
    lemma_responders_so_far(request, events, addr);
    let now = after_all(request, events);
    delivery::lemma_missing_are_silent(now.membership, now.membership, now.seen, addr);
}

/// An action and its content say the same.
pub proof fn lemma_action_content(action: Action)
    ensures
        match action {
            Action::Transmit { targets, window_ms } => action@ matches ActionView::Transmit {
                targets: t,
                window_ms: w,
            } && t == targets@ && w == window_ms,
            Action::Listen { window_ms } => action@ matches ActionView::Listen { window_ms: w } && w
                == window_ms,
            Action::KeepListening => action@ is KeepListening,
            Action::Answer(result) => action@ == ActionView::Answer(result@),
            Action::TimeOut => action@ is TimeOut,
            Action::Ignore => action@ is Ignore,
        },
{
}

/// A server that has responded is not sent the request again.
pub proof fn lemma_responders_are_left_alone(
    request: RequestRunView,
    data: Seq<u8>,
    from: PeerAddr,
    addr: PeerAddr,
)
    requires
        delivery::accepted(request.setup, request.membership, data) matches Some(result)
            && discovery::server_at(request.membership, addr) == Some(result.server_id),
    ensures
        !request.after_packet(data, from).0.missing().contains(addr),
{
    let next = request.after_packet(data, from).0;
    delivery::lemma_missing_are_silent(
        next.membership,
        next.membership,
        next.seen,
        addr,
    );
}

/// A packet that is no valid response of a member changes nothing.
pub proof fn lemma_foreign_packets_change_nothing(
    request: RequestRunView,
    data: Seq<u8>,
    addr: PeerAddr,
)
    requires
        delivery::accepted(request.setup, request.membership, data) is None,
    ensures
        request.after_packet(data, addr) == (request, ActionView::KeepListening),
{
}

/// In the initial round a valid response of the oldest member is the answer at
/// once, even if younger members responded before.
pub proof fn lemma_oldest_member_answers_at_once(
    request: RequestRunView,
    data: Seq<u8>,
    addr: PeerAddr,
    oldest: u64,
)
    requires
        request.well_formed(),
        request.run.stage == selection::Stage::Round(0),
        request.run.oldest == Some(oldest),
        delivery::accepted(request.setup, request.membership, data) matches Some(result)
            && result.server_id == oldest,
    ensures
        request.after_packet(data, addr).1 == ActionView::Answer(
            delivery::accepted(request.setup, request.membership, data)->0,
        ),
{
    assert(discovery::known_ids(request.membership).contains(oldest));
    if let Some(kept) = request.run.best {
        assert(discovery::known_ids(request.membership).contains(kept.server_id));
        selection::lemma_age_follows_identifiers(oldest, kept.server_id);
        selection::lemma_age_follows_identifiers(kept.server_id, oldest);
    }
}

} // verus!
