use std::io;
use std::time::Duration;

use ratelimitly::client::CoreClient;
use ratelimitly::config::PeerAddr;
use ratelimitly::delivery::{Delivery, ServerBook};
use ratelimitly::discovery::{ResolvedTargets, ServerEndpoint};
use ratelimitly::error::CoreError;
use ratelimitly::protocol::{PDU_LATENCY_REPORT, PDU_RATE_REQUEST};
use ratelimitly::public_client::RequestAdmission;
use ratelimitly::request_run::{Action, RequestRun};
use ratelimitly::routing::Inflight;
use ratelimitly::steering::{PendingAdvice, SteeringRun, SteeringStats, SteeringStep};
use ratelimitly::{
    ApiKey, Client, Decision, Error, LatencyTracker, RequestPolicy, Resource, Response, Schedule,
};

const SERVICE_DOMAIN: &str = "fixture.ratelimitly.com";
const SYNTHETIC_NONE_KEY: &str = "rl-none1qyyqwps9qspsyq2sk8e0sfdp3ys";

const TLV_TENANT: u16 = 0x4C52;
const TLV_AUTH_NONE: u16 = 0x414E;
const PDU_RATE_RESPONSE: u16 = 0x5252;

fn synthetic_api_key() -> ApiKey {
    SYNTHETIC_NONE_KEY.parse().expect("synthetic key is valid")
}

fn policy(
    unit_ms: u64,
    replays: u32,
    final_receive_units: u32,
    completion_delivery: bool,
) -> RequestPolicy {
    RequestPolicy::builder()
        .unit(Duration::from_millis(unit_ms))
        .replays(replays)
        .replay_gap(Schedule::fixed(1))
        .final_receive_units(final_receive_units)
        .completion_delivery(completion_delivery)
        .build()
        .expect("test policy is valid")
}

fn client_for(request_policy: RequestPolicy) -> Client {
    Client::builder(synthetic_api_key())
        .service_domain(SERVICE_DOMAIN)
        .expect("fixture service domain is valid")
        .request_policy(request_policy)
        .build()
        .expect("fixture client builds")
}

#[derive(Clone)]
enum Reply {
    Ignore,
    Decision {
        delay: Duration,
        granted: bool,
        steering_feedback: bool,
    },
    Malformed {
        delay: Duration,
    },
}

impl Reply {
    fn grant(delay: Duration) -> Self {
        Self::grant_with_steering(delay, true)
    }

    fn reject(delay: Duration) -> Self {
        Self::Decision {
            delay,
            granted: false,
            steering_feedback: true,
        }
    }

    fn grant_with_steering(delay: Duration, keep_port: bool) -> Self {
        Self::Decision {
            delay,
            granted: true,
            steering_feedback: keep_port,
        }
    }
}

struct ReceivedDatagram {
    source_port: u16,
    pdu_type: Option<u16>,
    request_id: Option<[u8; 16]>,
    received_at: Duration,
}

struct MockServer {
    server_id: u64,
    replies: Vec<Reply>,
    reachable: bool,
    rate_requests: usize,
    received: Vec<ReceivedDatagram>,
}

impl MockServer {
    fn start(server_id: u64, replies: Vec<Reply>) -> Self {
        Self {
            server_id,
            replies,
            reachable: true,
            rate_requests: 0,
            received: Vec::new(),
        }
    }

    fn unreachable(server_id: u64) -> Self {
        Self {
            reachable: false,
            ..Self::start(server_id, Vec::new())
        }
    }

    fn count(&self, pdu_type: u16) -> usize {
        self.received
            .iter()
            .filter(|item| item.pdu_type == Some(pdu_type))
            .count()
    }

    /// Takes a datagram in; returns the reply and when it is on its way.
    fn receive(
        &mut self,
        packet: &[u8],
        source_port: u16,
        now: Duration,
    ) -> Option<(Duration, Vec<u8>)> {
        let pdu_type = read_u16(packet, 44);
        self.received.push(ReceivedDatagram {
            source_port,
            pdu_type,
            request_id: packet.get(12..28).and_then(|bytes| bytes.try_into().ok()),
            received_at: now,
        });
        if pdu_type != Some(PDU_RATE_REQUEST) {
            return None;
        }
        let reply = self
            .replies
            .get(self.rate_requests)
            .cloned()
            .unwrap_or(Reply::Ignore);
        self.rate_requests += 1;
        match reply {
            Reply::Ignore => None,
            Reply::Decision {
                delay,
                granted,
                steering_feedback,
            } => Some((
                now + delay,
                build_rate_response(packet, self.server_id, granted, steering_feedback),
            )),
            Reply::Malformed { delay } => {
                let mut response = build_rate_response(packet, self.server_id, true, true);
                response[44..46].copy_from_slice(&0xFFFF_u16.to_le_bytes());
                Some((now + delay, response))
            }
        }
    }
}

fn build_rate_response(
    request: &[u8],
    server_id: u64,
    granted: bool,
    steering_feedback: bool,
) -> Vec<u8> {
    assert!(request.len() >= 52, "fixture received a truncated request");
    assert_eq!(read_u16(request, 0), Some(TLV_TENANT));
    assert_eq!(read_u16(request, 40), Some(TLV_AUTH_NONE));

    let mut response = request[..40].to_vec();
    response[4..12].copy_from_slice(&server_id.to_le_bytes());
    response[36] = u8::from(steering_feedback);
    response.extend_from_slice(&TLV_AUTH_NONE.to_le_bytes());
    response.extend_from_slice(&4_u16.to_le_bytes());

    let mut body = Vec::new();
    body.extend_from_slice(&0_u16.to_le_bytes());
    body.extend_from_slice(&u16::from(!granted).to_le_bytes());
    if !granted {
        let mut resource = [0_u8; 28];
        resource[24..26].copy_from_slice(&1_u16.to_le_bytes());
        body.extend_from_slice(&resource);
    }
    let pdu_size = 8 + body.len();
    response.extend_from_slice(&PDU_RATE_RESPONSE.to_le_bytes());
    response.extend_from_slice(&(pdu_size as u16).to_le_bytes());
    response.extend_from_slice(&[0_u8; 4]);
    response.extend_from_slice(&body);
    response
}

fn read_u16(data: &[u8], offset: usize) -> Option<u16> {
    Some(u16::from_le_bytes(
        data.get(offset..offset + 2)?.try_into().ok()?,
    ))
}

/// Servers on a network with a clock of its own.
struct Network {
    servers: Vec<MockServer>,
    now: Duration,
    underway: Vec<(Duration, Vec<u8>, PeerAddr)>,
    source_port: u16,
    socket_epoch: u64,
    stats: SteeringStats,
    book: ServerBook,
}

fn address_of(index: usize) -> PeerAddr {
    PeerAddr::V6 {
        ip6: 1,
        port: 5000 + index as u16,
        flowinfo: 0,
        scope_id: 0,
    }
}

impl Network {
    fn start(servers: Vec<MockServer>) -> Self {
        Self {
            servers,
            now: Duration::ZERO,
            underway: Vec::new(),
            source_port: 40_000,
            socket_epoch: 0,
            stats: SteeringStats::new(),
            book: ServerBook::new(),
        }
    }

    /// What discovery finds: one record for each server.
    fn discover(&self) -> Vec<ServerEndpoint> {
        let mut found = Vec::new();
        for (index, server) in self.servers.iter().enumerate() {
            let target = format!("s-{}.{SERVICE_DOMAIN}.", server.server_id);
            CoreClient::add_record(&mut found, &target, &[address_of(index)]);
        }
        CoreClient::discovered(found).expect("fixture has servers")
    }

    fn send<F>(&mut self, packet: &[u8], targets: &[PeerAddr], server_at: F) -> Result<(), CoreError>
    where
        F: Fn(PeerAddr) -> Option<u64>,
    {
        let mut delivery = Delivery::new();
        for target in targets {
            let index = (0..self.servers.len())
                .find(|index| address_of(*index) == *target)
                .expect("a fixture address");
            if self.servers[index].reachable {
                let reply = self.servers[index].receive(packet, self.source_port, self.now);
                if let Some((at, data)) = reply {
                    self.underway.push((at, data, *target));
                }
                delivery.sent();
            } else {
                delivery.failed(server_at(*target), io::Error::other("unreachable"));
            }
        }
        let unreached = delivery.finish()?;
        self.book.record_send_failures(&unreached, self.now.as_millis() as u64);
        Ok(())
    }

    /// The next packet to arrive before the deadline.
    fn receive_until(&mut self, deadline: Duration) -> Option<(Vec<u8>, PeerAddr)> {
        let next = (0..self.underway.len()).min_by_key(|index| self.underway[*index].0);
        match next {
            Some(index) if self.underway[index].0 < deadline => {
                let (at, data, addr) = self.underway.remove(index);
                self.now = self.now.max(at);
                Some((data, addr))
            }
            _ => {
                self.now = self.now.max(deadline);
                None
            }
        }
    }

    fn change_port(&mut self) {
        self.stats.advised();
        let (run, step) = SteeringRun::begin(self.stats, self.source_port, self.socket_epoch);
        let port = match step {
            SteeringStep::Bind { port } => port,
            _ => panic!("no port to bind"),
        };
        let (run, step) = run.on_bound();
        let epoch = match step {
            SteeringStep::Install { epoch } => epoch,
            _ => panic!("nothing to install"),
        };
        self.source_port = port;
        self.socket_epoch = epoch;
        let (run, _) = run.on_installed(port);
        let (run, step) = run.on_receiver(epoch);
        assert_eq!(step, SteeringStep::Settled { changed: true });
        self.stats = run.stats();
    }

    fn send_resource_request(&mut self, client: &Client) -> Result<Response, Error> {
        let resource = Resource::new("network-policy-test", Duration::from_secs(1), 100)?;
        let request = client.request().consume(&resource, 1)?;
        match request.admission()? {
            RequestAdmission::Granted(response) => return Ok(response),
            RequestAdmission::Ask { .. } => {}
        }
        let core = client.protocol_core();
        let resolved = CoreClient::membership(self.discover())?;
        let outgoing = request.prepare(self.now.as_millis() as u64)?;
        let mut inflight = Inflight::new();
        inflight.register(&outgoing.request_id, ());

        let started_at = self.now;
        let mut deadline = self.now;
        let (mut run, mut action) = RequestRun::begin(core, resolved);
        let result = loop {
            match action {
                Action::Transmit { targets, window_ms } => {
                    self.send(&outgoing.packet, &targets, |addr| run.server_at(addr))?;
                    deadline = self.now + Duration::from_millis(window_ms);
                }
                Action::Listen { window_ms } => {
                    deadline = self.now + Duration::from_millis(window_ms);
                }
                Action::KeepListening => {}
                Action::Answer(result) => break result,
                Action::TimeOut | Action::Ignore => return Err(CoreError::Timeout.into()),
            }
            (run, action) = match self.receive_until(deadline) {
                Some((data, addr)) => {
                    assert!(inflight.route(&data).is_some());
                    run.on_packet(&data, addr, &mut self.book, self.now.as_millis() as u64)
                }
                None => run.on_deadline(),
            };
        };
        let missing = run.completion_targets(self.now - started_at);
        let _ = self.send(&outgoing.packet, &missing, |addr| run.server_at(addr));
        if core.wants_steering(result.steering_feedback) {
            let mut advice = PendingAdvice::new();
            advice.advise();
            if advice.take() {
                self.change_port();
            }
        }
        Ok(Response::from_result(result))
    }
}

#[test]
fn single_server_request_uses_discovered_endpoint() {
    let server = MockServer::start(100, vec![Reply::grant(Duration::ZERO)]);
    let mut network = Network::start(vec![server]);
    let client = client_for(policy(50, 0, 0, false));

    let response = network
        .send_resource_request(&client)
        .expect("request succeeds");

    assert_eq!(response.decision(), Decision::Granted);
    assert_eq!(response.selected_server_id(), Some(100));
    assert_eq!(network.servers[0].count(PDU_RATE_REQUEST), 1);
}

#[test]
fn server_zero_is_named_as_any_other() {
    let server = MockServer::start(0, vec![Reply::reject(Duration::ZERO)]);
    let mut network = Network::start(vec![server]);
    let client = client_for(policy(50, 0, 0, false));

    let response = network
        .send_resource_request(&client)
        .expect("request succeeds");

    assert_eq!(response.decision(), Decision::Rejected);
    assert_eq!(response.selected_server_id(), Some(0));
}

#[test]
fn unreachable_endpoint_does_not_abort_the_request() {
    let server = MockServer::start(100, vec![Reply::grant(Duration::ZERO)]);
    // The unreachable endpoint is discovered alongside the reachable one, so a
    // successful request proves the send loop continued past its failure.
    let mut network = Network::start(vec![MockServer::unreachable(200), server]);
    let client = client_for(policy(50, 0, 0, false));

    let response = network
        .send_resource_request(&client)
        .expect("request survives an unreachable endpoint");

    assert_eq!(response.decision(), Decision::Granted);
    assert_eq!(response.selected_server_id(), Some(100));
    assert_eq!(network.servers[1].count(PDU_RATE_REQUEST), 1);
    let stats = network.book.stats_of(200).expect("a failure was counted");
    assert_eq!(stats.send_failures, 1);
}

#[test]
fn request_fails_when_every_endpoint_is_unreachable() {
    let mut network = Network::start(vec![MockServer::unreachable(100)]);
    let client = client_for(policy(50, 0, 0, false));

    let error = network
        .send_resource_request(&client)
        .expect_err("no endpoint could be reached");

    assert!(matches!(error, Error::Communication(_)), "got {error:?}");
}

#[test]
fn oldest_server_wins_even_when_a_younger_server_responds_first() {
    let oldest = MockServer::start(100, vec![Reply::reject(Duration::from_millis(20))]);
    let younger = MockServer::start(200, vec![Reply::grant(Duration::from_millis(1))]);
    let mut network = Network::start(vec![oldest, younger]);
    let client = client_for(policy(80, 0, 0, false));

    let response = network
        .send_resource_request(&client)
        .expect("request succeeds");

    assert_eq!(response.decision(), Decision::Rejected);
    assert_eq!(response.selected_server_id(), Some(100));
    assert_eq!(network.servers[0].count(PDU_RATE_REQUEST), 1);
    assert_eq!(network.servers[1].count(PDU_RATE_REQUEST), 1);
}

#[test]
fn initial_round_fallback_is_followed_by_completion_delivery() {
    let oldest = MockServer::start(100, vec![Reply::Ignore, Reply::Ignore]);
    let younger = MockServer::start(200, vec![Reply::grant(Duration::ZERO)]);
    let mut network = Network::start(vec![oldest, younger]);
    let client = client_for(policy(50, 1, 0, true));

    let response = network
        .send_resource_request(&client)
        .expect("request succeeds");

    assert_eq!(response.decision(), Decision::Granted);
    assert_eq!(response.selected_server_id(), Some(200));
    assert_eq!(network.servers[0].count(PDU_RATE_REQUEST), 2);
    assert_eq!(network.servers[1].count(PDU_RATE_REQUEST), 1);

    let oldest_requests: Vec<_> = network.servers[0]
        .received
        .iter()
        .filter(|item| item.pdu_type == Some(PDU_RATE_REQUEST))
        .collect();
    let younger_request = network.servers[1]
        .received
        .iter()
        .find(|item| item.pdu_type == Some(PDU_RATE_REQUEST))
        .expect("younger server received request");
    assert!(younger_request.request_id.is_some());
    assert_eq!(oldest_requests[0].request_id, oldest_requests[1].request_id);
    assert_eq!(oldest_requests[0].request_id, younger_request.request_id);
}

#[test]
fn silent_initial_round_replays_to_all_missing_servers() {
    let oldest = MockServer::start(
        100,
        vec![Reply::Ignore, Reply::reject(Duration::from_millis(20))],
    );
    let younger = MockServer::start(
        200,
        vec![Reply::Ignore, Reply::grant(Duration::from_millis(1))],
    );
    let mut network = Network::start(vec![oldest, younger]);
    let client = client_for(policy(50, 1, 0, false));

    let response = network
        .send_resource_request(&client)
        .expect("request succeeds");

    assert_eq!(response.decision(), Decision::Granted);
    assert_eq!(response.selected_server_id(), Some(200));
    assert_eq!(network.servers[0].count(PDU_RATE_REQUEST), 2);
    assert_eq!(network.servers[1].count(PDU_RATE_REQUEST), 2);
}

#[test]
fn delayed_response_can_complete_in_the_final_receive_phase() {
    let server = MockServer::start(100, vec![Reply::grant(Duration::from_millis(70))]);
    let mut network = Network::start(vec![server]);
    let client = client_for(policy(50, 0, 1, false));

    let response = network
        .send_resource_request(&client)
        .expect("request succeeds");

    assert_eq!(response.decision(), Decision::Granted);
    assert_eq!(response.selected_server_id(), Some(100));
    assert_eq!(network.servers[0].count(PDU_RATE_REQUEST), 1);
}

#[test]
fn malformed_response_is_ignored_and_the_request_is_replayed() {
    let server = MockServer::start(
        100,
        vec![
            Reply::Malformed {
                delay: Duration::ZERO,
            },
            Reply::grant(Duration::ZERO),
        ],
    );
    let mut network = Network::start(vec![server]);
    let client = client_for(policy(50, 1, 0, false));

    let response = network
        .send_resource_request(&client)
        .expect("request succeeds");

    assert_eq!(response.decision(), Decision::Granted);
    assert_eq!(network.servers[0].count(PDU_RATE_REQUEST), 2);
}

#[test]
fn silent_horizon_returns_timeout() {
    let server = MockServer::start(100, vec![Reply::Ignore]);
    let mut network = Network::start(vec![server]);
    let client = client_for(policy(30, 0, 0, false));

    let error = network
        .send_resource_request(&client)
        .expect_err("silent request must time out");

    assert!(matches!(error, Error::Timeout));
    assert_eq!(network.servers[0].count(PDU_RATE_REQUEST), 1);
    assert_eq!(network.now, Duration::from_millis(30));
}

#[test]
fn latency_report_is_sent_once_to_every_discovered_server() {
    let first = MockServer::start(100, vec![]);
    let second = MockServer::start(200, vec![]);
    let mut network = Network::start(vec![first, second]);
    let client = client_for(policy(50, 0, 0, false));
    let tracker = LatencyTracker::builder("inventory")
        .sample_ttl(Duration::from_secs(10))
        .max_samples(20)
        .min_samples(5)
        .build()
        .expect("tracker is valid");

    let outgoing = client
        .prepare_report(&tracker, Duration::from_millis(18), 0)
        .expect("latency report succeeds");
    let resolved = ResolvedTargets::new(network.discover());
    let targets: Vec<PeerAddr> = resolved.targets().iter().map(|server| server.addr).collect();
    network
        .send(&outgoing.packet, &targets, |addr| resolved.server_at(addr))
        .expect("latency report succeeds");

    assert_eq!(network.servers[0].count(PDU_LATENCY_REPORT), 1);
    assert_eq!(network.servers[1].count(PDU_LATENCY_REPORT), 1);
}

#[test]
fn steering_feedback_changes_the_source_port_for_the_next_request() {
    let server = MockServer::start(
        100,
        vec![
            Reply::grant_with_steering(Duration::ZERO, false),
            Reply::grant_with_steering(Duration::ZERO, false),
        ],
    );
    let mut network = Network::start(vec![server]);
    let client = client_for(policy(50, 0, 0, false));

    network
        .send_resource_request(&client)
        .expect("first request succeeds");
    network
        .send_resource_request(&client)
        .expect("second request succeeds");
    assert_eq!(network.servers[0].count(PDU_RATE_REQUEST), 2);

    let requests: Vec<_> = network.servers[0]
        .received
        .iter()
        .filter(|item| item.pdu_type == Some(PDU_RATE_REQUEST))
        .collect();
    assert_ne!(requests[0].source_port, requests[1].source_port);
    assert_ne!(requests[0].request_id, requests[1].request_id);
    assert!(requests[1].received_at >= requests[0].received_at);
}
