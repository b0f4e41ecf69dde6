use std::cmp::Ordering;
use std::io;
use std::time::Duration;

use ratelimitly::api_key_codec::bech32_encode;
use ratelimitly::client::CoreClient;
use ratelimitly::config::PeerAddr;
use ratelimitly::delivery::{Delivery, Responders, ServerBook};
use ratelimitly::discovery::{ResolvedTargets, ServerEndpoint};
use ratelimitly::error::CoreError;
use ratelimitly::protocol::{
    GuardResult, RateLimitResult, ResourceResult, TenantHeader, PDU_RATE_RESPONSE, TLV_TENANT,
};
use ratelimitly::request_run::{Action, RequestRun};
use ratelimitly::routing::Inflight;
use ratelimitly::selection::{is_older_server, PolicyRun, Stage, Step};
use ratelimitly::steering::{
    PendingAdvice, PortSearch, SteeringRun, SteeringStats, SteeringStep, STEERING_PORT_MIN,
};
use ratelimitly::{ApiKey, Client, Decision, Error, RequestPolicy, Response, Schedule};

const OLD: u64 = 100;
const YOUNG: u64 = 200;

fn client_of(policy: RequestPolicy) -> Client {
    let word: u32 = 16 | (10 << 5) | (12 << 10) | (5 << 15) | (100 << 19) | (31 << 27);
    let mut payload = vec![1u8];
    payload.extend_from_slice(&7u64.to_le_bytes());
    payload.extend_from_slice(&word.to_le_bytes());
    let key: ApiKey = bech32_encode("rl-none", &payload).unwrap().parse().unwrap();
    Client::builder(key).request_policy(policy).build().expect("client")
}

fn policy(unit_ms: u64, replays: u32, final_units: u32) -> RequestPolicy {
    RequestPolicy::builder()
        .unit(Duration::from_millis(unit_ms))
        .replays(replays)
        .replay_gap(Schedule::fixed(1))
        .final_receive_units(final_units)
        .build()
        .unwrap()
}

fn addr(last: u32, port: u16) -> PeerAddr {
    PeerAddr::V4 { ip4: 0x7f00_0000 + last, port }
}

fn endpoint(last: u32, server_id: Option<u64>) -> ServerEndpoint {
    ServerEndpoint { addr: addr(last, 4000), server_id }
}

fn result_of(server_id: u64) -> RateLimitResult {
    RateLimitResult {
        success: true,
        guard_results: Vec::new(),
        resource_results: Vec::new(),
        server_id,
        steering_feedback: true,
    }
}

fn response_from(server_id: u64) -> Vec<u8> {
    let mut packet = TenantHeader {
        tlv_type: TLV_TENANT,
        tlv_size: 40,
        key_id: server_id,
        unique_id: [0; 16],
        time_stamp: 0,
        steering_feedback: 1,
        tenant_mgmt_flag: 0,
        padding: [0, 0],
    }
    .to_bytes();
    packet.extend_from_slice(&[0x4e, 0x41, 4, 0]);
    packet.extend_from_slice(&PDU_RATE_RESPONSE.to_le_bytes());
    packet.extend_from_slice(&[12, 0, 0, 0, 0, 0, 0, 0, 0, 0]);
    packet
}

fn transmits(step: &Step, window: u64) -> bool {
    matches!(step, Step::Transmit { window_ms } if *window_ms == window)
}

fn selects(step: &Step, server_id: u64) -> bool {
    matches!(step, Step::Select(result) if result.server_id == server_id)
}

#[test]
fn the_oldest_server_is_selected_as_soon_as_it_responds() {
    let (run, step) = PolicyRun::begin(policy(80, 1, 1), Some(OLD));
    assert!(transmits(&step, 80));
    let (run, step) = run.on_response(result_of(YOUNG));
    assert!(matches!(step, Step::KeepListening));
    let (run, step) = run.on_response(result_of(OLD));
    assert!(selects(&step, OLD));
    let (run, step) = run.on_response(result_of(1));
    assert!(matches!(step, Step::Ignore));
    let (_, step) = run.on_window_end();
    assert!(matches!(step, Step::Ignore));
}

#[test]
fn completion_is_due_until_the_horizon() {
    let client = client_of(policy(50, 1, 1));
    let core = client.protocol_core();
    let resolved = ResolvedTargets::new(vec![endpoint(1, Some(OLD)), endpoint(2, Some(YOUNG))]);
    let mut seen = Responders::new();
    let mut book = ServerBook::new();
    let (run, _) = PolicyRun::begin(core.request_policy(), resolved.oldest_server_id());
    let response = core
        .accept_policy_response(
            &response_from(YOUNG),
            addr(2, 4000),
            &resolved,
            &mut seen,
            &mut book,
            9,
        )
        .expect("a response that counts");
    let (run, step) = run.on_response(response);
    assert!(matches!(step, Step::KeepListening));
    let (_, step) = run.on_window_end();
    assert!(selects(&step, YOUNG));
    assert!(core.completion_due(Duration::from_millis(50)));
    assert_eq!(CoreClient::missing_targets(&resolved, &seen), vec![addr(1, 4000)]);
    assert!(!core.completion_due(Duration::from_millis(150)));
    assert!(core.completion_due(Duration::from_nanos(149_999_999)));
    assert_eq!(book.stats_of(YOUNG).unwrap().valid_responses, 1);
    assert_eq!(book.stats_of(YOUNG).unwrap().last_seen_ms, 9);
    assert_eq!(book.stats_of(OLD), None);
}

#[test]
fn oldest_responder_is_kept_in_any_order() {
    let (run, _) = PolicyRun::begin(policy(20, 0, 0), Some(1));
    let (run, _) = run.on_response(result_of(30));
    let (run, _) = run.on_response(result_of(10));
    let (run, _) = run.on_response(result_of(20));
    let (run, step) = run.on_window_end();
    assert!(selects(&step, 10));
    assert_eq!(run.stage(), Stage::Ended);
}

#[test]
fn a_silent_round_is_followed_by_a_replay() {
    let (run, step) = PolicyRun::begin(policy(20, 1, 1), Some(OLD));
    assert!(transmits(&step, 20));
    let (run, step) = run.on_window_end();
    assert!(transmits(&step, 20));
    assert_eq!(run.stage(), Stage::Round(1));
    let (_, step) = run.on_response(result_of(YOUNG));
    assert!(selects(&step, YOUNG));
    let resolved = ResolvedTargets::new(vec![endpoint(1, Some(OLD)), endpoint(2, Some(YOUNG))]);
    assert_eq!(
        CoreClient::missing_targets(&resolved, &Responders::new()),
        vec![addr(1, 4000), addr(2, 4000)]
    );
}

#[test]
fn the_final_phase_only_listens() {
    let (run, _) = PolicyRun::begin(policy(30, 1, 2), Some(OLD));
    let (run, _) = run.on_window_end();
    let (run, step) = run.on_window_end();
    assert!(matches!(step, Step::Listen { window_ms: 60 }));
    assert_eq!(run.stage(), Stage::Final);
    let (_, step) = run.on_response(result_of(OLD));
    assert!(selects(&step, OLD));
}

#[test]
fn packets_that_do_not_count_leave_servers_missing() {
    let client = client_of(policy(20, 1, 1));
    let core = client.protocol_core();
    let resolved = ResolvedTargets::new(vec![endpoint(1, Some(OLD))]);
    let mut seen = Responders::new();
    let mut book = ServerBook::new();
    let mut malformed = response_from(OLD);
    malformed.pop();
    for data in [malformed, response_from(YOUNG), vec![0; 10]] {
        let accepted =
            core.accept_policy_response(&data, addr(1, 4000), &resolved, &mut seen, &mut book, 0);
        assert!(accepted.is_none());
    }
    assert_eq!(CoreClient::missing_targets(&resolved, &seen), vec![addr(1, 4000)]);
    assert_eq!(book.stats_of(OLD), None);
    assert!(core
        .accept_policy_response(
            &response_from(OLD),
            addr(1, 4000),
            &resolved,
            &mut seen,
            &mut book,
            0
        )
        .is_some());
    assert!(CoreClient::missing_targets(&resolved, &seen).is_empty());
}

#[test]
fn silence_lasts_for_the_whole_horizon() {
    let policy = RequestPolicy::builder()
        .unit(Duration::from_millis(30))
        .replays(2)
        .replay_gap(Schedule::linear(1, 1, 2))
        .final_receive_units(4)
        .build()
        .unwrap();
    let (mut run, mut step) = PolicyRun::begin(policy, Some(OLD));
    let mut listened = 0;
    loop {
        match step {
            Step::Transmit { window_ms } | Step::Listen { window_ms } => listened += window_ms,
            Step::TimeOut => break,
            _ => panic!("silence selects nothing"),
        }
        let next = run.on_window_end();
        run = next.0;
        step = next.1;
    }
    assert_eq!(Duration::from_millis(listened), policy.horizon());
    assert_eq!(listened, 30 * (1 + 2 + 2 + 4));
    let error = Error::from(CoreError::Timeout);
    assert!(matches!(error, Error::Timeout));
}

#[test]
fn unreached_servers_are_counted() {
    let mut delivery = Delivery::new();
    delivery.failed(Some(OLD), io::Error::other("unreachable"));
    delivery.sent();
    delivery.failed(None, io::Error::other("unreachable"));
    let unreached = delivery.finish().expect("one send got out");
    assert_eq!(unreached, vec![OLD]);
    let mut book = ServerBook::new();
    book.record_send_failures(&unreached, 5);
    book.record_send_failures(&[OLD, OLD], 6);
    let stats = book.stats_of(OLD).unwrap();
    assert_eq!(stats.send_failures, 3);
    assert_eq!(stats.last_seen_ms, 5);
    assert_eq!(stats.valid_responses, 0);
}

#[test]
fn the_last_error_is_returned_when_nothing_got_out() {
    let mut delivery = Delivery::new();
    delivery.failed(Some(OLD), io::Error::other("first"));
    delivery.failed(Some(YOUNG), io::Error::other("last"));
    let error = match delivery.finish() {
        Ok(_) => panic!("no endpoint could be reached"),
        Err(error) => error,
    };
    assert_eq!(error.to_string(), "network I/O error: last");
    assert!(matches!(Error::from(error), Error::Communication(_)));
    assert_eq!(Delivery::new().finish().unwrap(), Vec::<u64>::new());
}

#[test]
fn servers_are_older_in_the_order_of_their_identifiers() {
    assert_eq!(CoreClient::server_start_s_from_id(0), 1_735_689_600);
    assert_eq!(CoreClient::server_start_s_from_id(3 << 23), 1_735_689_603);
    assert_eq!(CoreClient::compare_server_age(1, 2), Ordering::Less);
    assert_eq!(CoreClient::compare_server_age(1 << 23, 5), Ordering::Greater);
    assert_eq!(CoreClient::compare_server_age(5, 5), Ordering::Equal);
    assert!(is_older_server(0, u64::MAX));
    assert!(!is_older_server(7, 7));
}

#[test]
fn parse_server_id_from_target_prefix() {
    let id = CoreClient::parse_server_id_from_target("s-1015809.rl.us1.com.");
    assert_eq!(id, Some(1015809));
}

#[test]
fn parse_server_id_from_target_rejects_invalid() {
    assert!(CoreClient::parse_server_id_from_target("rl.us1.com").is_none());
    assert!(CoreClient::parse_server_id_from_target("s-.rl.us1.com").is_none());
    assert!(CoreClient::parse_server_id_from_target("s-x.rl.us1.com").is_none());
    assert!(CoreClient::parse_server_id_from_target("s-01.rl.us1.com").is_none());
}

#[test]
fn targets_name_servers_in_decimal() {
    let parse = CoreClient::parse_server_id_from_target;
    assert_eq!(parse("S-0"), Some(0));
    assert_eq!(parse("s-18446744073709551615.x"), Some(u64::MAX));
    assert_eq!(parse("s-18446744073709551616.x"), None);
    assert_eq!(parse("s-7..."), Some(7));
    assert_eq!(parse("..."), None);
    assert_eq!(parse(""), None);
    assert_eq!(parse("s-é"), None);
}

#[test]
fn discovery_keeps_endpoints_of_named_servers() {
    let mut found = Vec::new();
    CoreClient::add_record(&mut found, "s-100.x.", &[addr(1, 4000), addr(2, 4000)]);
    CoreClient::add_record(&mut found, "other.x.", &[addr(3, 4000)]);
    CoreClient::add_record(&mut found, "s-200.x.", &[addr(4, 4000)]);
    let servers = CoreClient::discovered(found).expect("servers");
    assert_eq!(
        servers,
        vec![endpoint(1, Some(OLD)), endpoint(2, Some(OLD)), endpoint(4, Some(YOUNG))]
    );
    let resolved = match CoreClient::membership(servers) {
        Ok(resolved) => resolved,
        Err(error) => panic!("{error:?}"),
    };
    assert_eq!(resolved.oldest_server_id(), Some(OLD));
    assert!(resolved.allows(YOUNG));
    assert!(!resolved.allows(300));
    assert_eq!(resolved.server_at(addr(2, 4000)), Some(OLD));
    assert_eq!(resolved.server_at(addr(3, 4000)), None);
    let mut seen = Responders::new();
    seen.record(OLD, addr(2, 4000));
    assert_eq!(CoreClient::missing_targets(&resolved, &seen), vec![addr(4, 4000)]);

    let none = CoreClient::discovered(Vec::new()).unwrap_err();
    assert_eq!(none.to_string(), "DNS resolution error: No SRV servers found");
    assert!(matches!(Error::from(none), Error::Discovery));
    let empty = match CoreClient::membership(Vec::new()) {
        Ok(_) => panic!("an empty membership"),
        Err(error) => error,
    };
    assert_eq!(empty.to_string(), "DNS resolution error: No servers available");
}

#[test]
fn servers_without_identifier_are_known_by_address() {
    let resolved = ResolvedTargets::new(vec![endpoint(1, None), endpoint(2, None)]);
    assert!(!resolved.is_empty());
    assert_eq!(resolved.targets().len(), 2);
    assert_eq!(resolved.oldest_server_id(), None);
    assert!(resolved.allows(12));
    let mut seen = Responders::new();
    seen.record(12, addr(1, 4000));
    assert!(seen.has(&resolved, addr(1, 4000)));
    assert_eq!(CoreClient::missing_targets(&resolved, &seen), vec![addr(2, 4000)]);
}

#[test]
fn discovery_is_repeated_after_a_minute() {
    let client = client_of(RequestPolicy::default());
    let core = client.protocol_core();
    assert!(!core.dns_refresh_due(60));
    assert!(core.dns_refresh_due(61));
    assert!(core.dns_refresh_due(core.initial_discovery_age_s()));
    assert_eq!(core.srv_query(), "_ratelimitly._udp.c-7.p0.ratelimitly.com");
}

#[test]
fn steering_ports_advance_monotonically_and_wrap_once_at_the_boundary() {
    assert_eq!(
        CoreClient::next_steering_port(STEERING_PORT_MIN),
        STEERING_PORT_MIN + 1
    );
    assert_eq!(CoreClient::next_steering_port(u16::MAX - 1), u16::MAX);
    assert_eq!(CoreClient::next_steering_port(u16::MAX), STEERING_PORT_MIN);
    assert_eq!(CoreClient::next_steering_port(40_000), STEERING_PORT_MIN);
}

#[test]
fn port_search_tries_every_port_once() {
    let mut search = PortSearch::begin(0, 60_000);
    let mut tried = Vec::new();
    while let Some(port) = search.candidate() {
        tried.push(port);
        search = search.occupied();
    }
    assert_eq!(tried.len(), 16_384);
    assert_eq!(tried[0], 60_001);
    assert_eq!(*tried.last().unwrap(), 60_000);
    tried.sort_unstable();
    tried.dedup();
    assert_eq!(tried.len(), 16_384);
    assert_eq!(tried[0], STEERING_PORT_MIN);

    let search = PortSearch::begin(50_000, 60_000);
    assert_eq!(search.candidate(), Some(50_000));
    let search = search.occupied();
    assert_eq!(search.candidate(), Some(50_001));
    assert_eq!(search.following(), 50_002);
}

#[test]
fn steering_follows_advice_and_counts_changes() {
    let client = client_of(RequestPolicy::default());
    assert!(client.protocol_core().wants_steering(false));
    assert!(!client.protocol_core().wants_steering(true));
    let mut stats = SteeringStats::new();
    stats.advised();
    stats.rebound(50_001);
    assert!(stats.settled(50_000));
    assert!(!stats.settled(50_000));
    assert!(stats.settled(50_001));
    assert_eq!(stats.feedback_zero_count, 1);
    assert_eq!(stats.port_changes, 2);
    assert_eq!(stats.last_port, Some(50_001));
    assert_eq!(stats.next_port, 50_001);
}

#[test]
fn answers_show_the_decision_and_its_reasons() {
    let response = Response::from_result(RateLimitResult {
        success: false,
        guard_results: vec![GuardResult {
            latency_tracker_id: [1; 16],
            threshold_ms: 5,
            current_latency_ms: 7,
            passed: false,
        }],
        resource_results: vec![ResourceResult {
            bucket_id: [2; 16],
            tokens_deficit: 3,
            actual_rate: 4,
        }],
        server_id: OLD,
        steering_feedback: false,
    });
    assert_eq!(response.decision(), Decision::Rejected);
    assert_eq!(response.selected_server_id(), Some(OLD));
    let guard = &response.guard_results()[0];
    assert_eq!(guard.tracker_id().as_bytes(), &[1; 16]);
    assert_eq!(guard.threshold(), Duration::from_millis(5));
    assert_eq!(guard.current_latency(), Duration::from_millis(7));
    assert!(!guard.passed());
    let resource = &response.resource_results()[0];
    assert_eq!(resource.resource_id().as_bytes(), &[2; 16]);
    assert_eq!(resource.tokens_deficit(), 3);
    assert_eq!(resource.actual_rate(), 4);
}

#[test]
fn inflight_registration_removes_cancelled_request() {
    let mut inflight: Inflight<&str> = Inflight::new();
    let packet_of = |request_id: [u8; 16]| {
        let mut packet = response_from(OLD);
        packet[12..28].copy_from_slice(&request_id);
        packet
    };
    let mut other = [7u8; 16];
    other[15] = 8;
    inflight.register(&[7; 16], "first");
    inflight.register(&other, "second");
    assert_eq!(inflight.route(&packet_of([7; 16])), Some(&"first"));
    assert_eq!(inflight.route(&packet_of(other)), Some(&"second"));
    assert_eq!(inflight.route(&packet_of([8; 16])), None);
    assert_eq!(inflight.route(&packet_of([7; 16])[..39]), None);
    inflight.unregister(&[7; 16]);
    assert_eq!(inflight.route(&packet_of([7; 16])), None);
    assert_eq!(inflight.route(&packet_of(other)), Some(&"second"));
    inflight.unregister(&[7; 16]);
    inflight.register(&other, "third");
    assert_eq!(inflight.route(&packet_of(other)), Some(&"third"));
}

#[test]
fn a_request_runs_from_its_first_send_to_its_answer() {
    let client = client_of(policy(20, 1, 1));
    let core = client.protocol_core();
    let mut book = ServerBook::new();
    let resolved = ResolvedTargets::new(vec![endpoint(1, Some(OLD)), endpoint(2, Some(YOUNG))]);
    let (run, action) = RequestRun::begin(core, resolved);
    match action {
        Action::Transmit { targets, window_ms } => {
            assert_eq!(targets, vec![addr(1, 4000), addr(2, 4000)]);
            assert_eq!(window_ms, 20);
        }
        _ => panic!("a request begins by sending"),
    }
    let (run, action) = run.on_packet(&response_from(300), addr(3, 4000), &mut book, 1);
    assert!(matches!(action, Action::KeepListening));
    let (run, action) = run.on_deadline();
    match action {
        Action::Transmit { targets, .. } => assert_eq!(targets.len(), 2),
        _ => panic!("a silent round is replayed"),
    }
    let (run, action) = run.on_packet(&response_from(YOUNG), addr(2, 4000), &mut book, 2);
    match action {
        Action::Answer(result) => assert_eq!(result.server_id, YOUNG),
        _ => panic!("a replay round takes the first response"),
    }
    assert_eq!(run.completion_targets(Duration::from_millis(25)), vec![addr(1, 4000)]);
    assert!(run.completion_targets(Duration::from_millis(60)).is_empty());
    assert_eq!(run.server_at(addr(1, 4000)), Some(OLD));
    assert_eq!(book.stats_of(YOUNG).unwrap().valid_responses, 1);
    let (_, action) = run.on_packet(&response_from(OLD), addr(1, 4000), &mut book, 3);
    assert!(matches!(action, Action::Ignore));
}

#[test]
fn a_request_without_response_listens_and_times_out() {
    let client = client_of(policy(20, 0, 2));
    let core = client.protocol_core();
    let resolved = ResolvedTargets::new(vec![endpoint(1, Some(OLD))]);
    let (run, _) = RequestRun::begin(core, resolved);
    let (run, action) = run.on_deadline();
    assert!(matches!(action, Action::Listen { window_ms: 40 }));
    let (run, action) = run.on_deadline();
    assert!(matches!(action, Action::TimeOut));
    let (_, action) = run.on_deadline();
    assert!(matches!(action, Action::Ignore));
}

#[test]
fn one_change_of_port_answers_all_advice() {
    let mut advice = PendingAdvice::new();
    assert!(!advice.take());
    advice.advise();
    advice.advise();
    assert!(advice.take());
    assert!(!advice.take());
    assert!(!advice.pending);
}

#[test]
fn a_change_of_port_waits_for_the_receiver() {
    let mut advised = SteeringStats::new();
    advised.advised();
    let (run, step) = SteeringRun::begin(advised, 65_535, u64::MAX);
    assert_eq!(step, SteeringStep::Bind { port: 49_152 });
    let (run, step) = run.on_occupied();
    assert_eq!(step, SteeringStep::Bind { port: 49_153 });
    let (run, step) = run.on_bound();
    assert_eq!(step, SteeringStep::Install { epoch: 0 });
    assert_eq!(run.stats().next_port, 49_154);
    let (run, step) = run.on_occupied();
    assert_eq!(step, SteeringStep::Ignore);
    let (run, step) = run.on_installed(49_153);
    assert_eq!(step, SteeringStep::AwaitReceiver { epoch: 0 });
    let (run, step) = run.on_receiver(u64::MAX);
    assert_eq!(step, SteeringStep::AwaitReceiver { epoch: 0 });
    let (run, step) = run.on_receiver(0);
    assert_eq!(step, SteeringStep::Settled { changed: true });
    let stats = run.stats();
    assert_eq!(stats.last_port, Some(49_153));
    assert_eq!(stats.port_changes, 1);
    assert_eq!(stats.feedback_zero_count, 1);
    let (_, step) = SteeringRun::begin(stats, 49_153, 0);
    assert_eq!(step, SteeringStep::Bind { port: 49_154 });
}

#[test]
fn a_change_of_port_gives_up_when_every_port_is_occupied() {
    let (mut run, mut step) = SteeringRun::begin(SteeringStats::new(), 50_000, 0);
    let mut tried = 0;
    while let SteeringStep::Bind { port } = step {
        tried += 1;
        assert!(port >= STEERING_PORT_MIN);
        assert_eq!(port == 50_000, tried == 16_384);
        let next = run.on_occupied();
        run = next.0;
        step = next.1;
    }
    assert_eq!(step, SteeringStep::Exhausted);
    assert_eq!(tried, 16_384);
    assert_eq!(run.on_bound().1, SteeringStep::Ignore);
}

#[test]
fn windows_never_outlast_the_horizon() {
    // A kept response, then the deadline: one window of three.
    let policy = policy(20, 1, 1);
    let (run, step) = PolicyRun::begin(policy, Some(1));
    assert!(transmits(&step, 20));
    let (run, step) = run.on_response(result_of(9));
    assert!(matches!(step, Step::KeepListening));
    let (run, step) = run.on_window_end();
    assert!(selects(&step, 9));
    assert_eq!(run.stage(), Stage::Ended);

    // Silence: all three windows, which make up the horizon.
    let (mut run, mut step) = PolicyRun::begin(policy, Some(1));
    let mut waited = 0;
    loop {
        match step {
            Step::Transmit { window_ms } | Step::Listen { window_ms } => waited += window_ms,
            Step::TimeOut => break,
            _ => panic!("nothing was heard"),
        }
        let next = run.on_window_end();
        run = next.0;
        step = next.1;
    }
    assert_eq!(Duration::from_millis(waited), policy.horizon());
}

#[test]
fn membership_stays_as_it_was_when_the_request_began() {
    let client = client_of(policy(20, 1, 1));
    let servers = vec![endpoint(1, Some(10)), endpoint(2, Some(20))];
    let resolved = match CoreClient::membership(servers) {
        Ok(resolved) => resolved,
        Err(_) => panic!("no membership"),
    };
    let (run, _) = RequestRun::begin(client.protocol_core(), resolved);
    let mut book = ServerBook::new();
    let (run, action) = run.on_packet(&response_from(30), addr(3, 1), &mut book, 0);
    assert!(matches!(action, Action::KeepListening));
    assert_eq!(book.stats_of(30), None);
    let (run, action) = run.on_deadline();
    match action {
        Action::Transmit { targets, .. } => {
            assert_eq!(targets, vec![endpoint(1, None).addr, endpoint(2, None).addr]);
        }
        _ => panic!("no replay"),
    }
    assert_eq!(run.server_at(endpoint(2, None).addr), Some(20));
}

#[test]
fn every_server_is_named_whatever_its_identifier() {
    for server_id in [0, 1, u64::MAX] {
        let response = Response::from_result(result_of(server_id));
        assert_eq!(response.selected_server_id(), Some(server_id));
    }
    let local = Response::local();
    assert_eq!(local.selected_server_id(), None);
    assert_eq!(local.decision(), Decision::Granted);
    assert!(local.resource_results().is_empty());
    assert!(local.guard_results().is_empty());
}

#[test]
fn a_change_of_port_goes_on_where_the_last_one_ended() {
    let (run, step) = SteeringRun::begin(SteeringStats::new(), 40_000, 0);
    assert_eq!(step, SteeringStep::Bind { port: 49_152 });
    let (run, _) = run.on_bound();
    let (run, _) = run.on_installed(49_152);
    let (run, _) = run.on_receiver(1);
    let (_, step) = SteeringRun::begin(run.stats(), 49_152, 1);
    assert_eq!(step, SteeringStep::Bind { port: 49_153 });
}
