//! Who a request still has to reach, which responses count, and what became
//! of the sends.

use std::collections::{HashMap, HashSet};
use std::io;

use vstd::prelude::*;

use crate::client;
use crate::client::{CoreClient, CoreClientView};
use crate::config::{AuthMethod, PeerAddr};
use crate::discovery;
use crate::discovery::{ResolvedTargets, ServerEndpoint};
use crate::error::CoreError;
use crate::protocol::{RateLimitResult, RateLimitResultView};
use crate::response_wire;
use crate::selection;

verus! {

broadcast use vstd::std_specs::hash::group_hash_axioms;

/// The servers that have responded to a request, and the addresses that valid
/// responses came from.
pub struct Responders {
    server_ids: HashSet<u64>,
    addrs: Vec<PeerAddr>,
}

/// The content of [`Responders`].
pub ghost struct RespondersView {
    pub server_ids: Set<u64>,
    pub addrs: Set<PeerAddr>,
}

impl View for Responders {
    type V = RespondersView;

    closed spec fn view(&self) -> RespondersView {
        RespondersView { server_ids: self.server_ids@, addrs: self.addrs@.to_set() }
    }
}

impl RespondersView {
    /// With one more responder.
    pub open spec fn with(self, server_id: u64, addr: PeerAddr) -> RespondersView {
        RespondersView {
            server_ids: self.server_ids.insert(server_id),
            addrs: self.addrs.insert(addr),
        }
    }

    /// Whether the server behind an address has responded: by its identifier
    /// where that is known, otherwise by the address.
    pub open spec fn has(self, endpoints: Seq<ServerEndpoint>, addr: PeerAddr) -> bool {
        match discovery::server_at(endpoints, addr) {
            Some(id) => self.server_ids.contains(id),
            None => self.addrs.contains(addr),
        }
    }
}

impl Responders {
    /// Nobody yet.
    pub fn new() -> (seen: Self)
        ensures
            seen@ == (RespondersView { server_ids: Set::empty(), addrs: Set::empty() }),
    {
        let seen: Responders = Responders { server_ids: HashSet::new(), addrs: Vec::new() };
        assert(seen.addrs@.to_set() =~= Set::empty());
        seen
    }

    /// Takes a responder down.
    pub fn record(&mut self, server_id: u64, addr: PeerAddr)
        ensures
            final(self)@ == old(self)@.with(server_id, addr),
    {
        let ghost before = self.addrs@;
        self.server_ids.insert(server_id);
        self.addrs.push(addr);
        assert(self.addrs@.to_set() =~= before.to_set().insert(addr)) by {
            let after = self.addrs@;
            assert forall|a: PeerAddr| #[trigger] after.contains(a) == (before.contains(a) || a
                == addr) by {
                if before.contains(a) {
                    let i = choose|i: int| 0 <= i < before.len() && before[i] == a;
                    assert(after[i] == a);
                }
                if a == addr {
                    assert(after[before.len() as int] == a);
                }
                if after.contains(a) {
                    let i = choose|i: int| 0 <= i < after.len() && after[i] == a;
                    if i < before.len() {
                        assert(before[i] == a);
                    }
                }
            }
        }
    }

    /// Whether an address is among those that responded.
    fn has_addr(&self, addr: PeerAddr) -> (has: bool)
        ensures
            has == self@.addrs.contains(addr),
    {
        let mut i: usize = 0;
        while i < self.addrs.len()
            invariant
                i <= self.addrs@.len(),
                forall|j: int| 0 <= j < i ==> #[trigger] self.addrs@[j] != addr,
            decreases self.addrs@.len() - i,
        {
            if self.addrs[i] == addr {
                assert(self.addrs@.contains(addr));
                return true;
            }
            i = i + 1;
        }
        assert(!self.addrs@.contains(addr));
        false
    }

    /// Whether the server behind an address has responded.
    pub fn has(&self, resolved: &ResolvedTargets, addr: PeerAddr) -> (has: bool)
        ensures
            has == self@.has(resolved@, addr),
    {
        match resolved.server_at(addr) {
            Some(id) => self.server_ids.contains(&id),
            None => self.has_addr(addr),
        }
    }
}

/// The addresses, in order, whose servers have not responded.
pub open spec fn missing(
    membership: Seq<ServerEndpoint>,
    endpoints: Seq<ServerEndpoint>,
    seen: RespondersView,
) -> Seq<PeerAddr>
    decreases endpoints.len(),
{
    if endpoints.len() == 0 {
        Seq::empty()
    } else {
        let rest = missing(membership, endpoints.drop_last(), seen);
        if seen.has(membership, endpoints.last().addr) {
            rest
        } else {
            rest.push(endpoints.last().addr)
        }
    }
}

/// A request is sent again to exactly the addresses of the membership whose
/// servers have not responded.
pub proof fn lemma_missing_are_silent(
    membership: Seq<ServerEndpoint>,
    endpoints: Seq<ServerEndpoint>,
    seen: RespondersView,
    addr: PeerAddr,
)
    ensures
        missing(membership, endpoints, seen).contains(addr) <==> (!seen.has(membership, addr)
            && exists|i: int| 0 <= i < endpoints.len() && (#[trigger] endpoints[i]).addr == addr),
    decreases endpoints.len(),
{
    if endpoints.len() > 0 {
        let head = endpoints.drop_last();
        let last = endpoints.last().addr;
        lemma_missing_are_silent(membership, head, seen, addr);
        let before = missing(membership, head, seen);
        let after = missing(membership, endpoints, seen);
        if before.contains(addr) {
            let i = choose|i: int| 0 <= i < before.len() && before[i] == addr;
            assert(after[i] == addr);
        }
        if after.contains(addr) && after.len() > before.len() {
            let i = choose|i: int| 0 <= i < after.len() && after[i] == addr;
            if i < before.len() {
                assert(before[i] == addr);
            }
        }
        if !seen.has(membership, last) {
            assert(after[before.len() as int] == last);
        }
        if exists|i: int| 0 <= i < head.len() && (#[trigger] head[i]).addr == addr {
            let i = choose|i: int| 0 <= i < head.len() && (#[trigger] head[i]).addr == addr;
            assert(endpoints[i].addr == addr);
        }
        if exists|i: int| 0 <= i < endpoints.len() && (#[trigger] endpoints[i]).addr == addr {
            let i = choose|i: int|
                0 <= i < endpoints.len() && (#[trigger] endpoints[i]).addr == addr;
            if i < head.len() {
                assert(head[i].addr == addr);
            }
        }
        assert(endpoints[endpoints.len() - 1].addr == last);
    }
}

/// What a request is sent to again are the addresses of the membership, in
/// their order and as often as they occur there, without those whose server has
/// responded: the server is known by its identifier where the membership has
/// one for the address, and by the address otherwise.
pub proof fn lemma_missing_in_order(
    membership: Seq<ServerEndpoint>,
    endpoints: Seq<ServerEndpoint>,
    seen: RespondersView,
)
    ensures
        missing(membership, endpoints, seen) == endpoints.filter(
            |e: ServerEndpoint|
                match discovery::server_at(membership, e.addr) {
                    Some(id) => !seen.server_ids.contains(id),
                    None => !seen.addrs.contains(e.addr),
                },
        ).map_values(|e: ServerEndpoint| e.addr),
    decreases endpoints.len(),
{
    reveal(Seq::filter);
    if endpoints.len() > 0 {
        lemma_missing_in_order(membership, endpoints.drop_last(), seen);
    }
    assert(missing(membership, endpoints, seen) =~= endpoints.filter(
        |e: ServerEndpoint|
            match discovery::server_at(membership, e.addr) {
                Some(id) => !seen.server_ids.contains(id),
                None => !seen.addrs.contains(e.addr),
            },
    ).map_values(|e: ServerEndpoint| e.addr));
}

/// When every server is silent, the request goes to every address.
pub proof fn lemma_first_send_reaches_everyone(membership: Seq<ServerEndpoint>, endpoints: Seq<
    ServerEndpoint,
>)
    ensures
        missing(
            membership,
            endpoints,
            RespondersView { server_ids: Set::empty(), addrs: Set::empty() },
        ) == Seq::new(endpoints.len(), |i: int| endpoints[i].addr),
    decreases endpoints.len(),
{
    let nobody = RespondersView { server_ids: Set::empty(), addrs: Set::empty() };
    if endpoints.len() > 0 {
        lemma_first_send_reaches_everyone(membership, endpoints.drop_last());
    }
    assert(missing(membership, endpoints, nobody) =~= Seq::new(
        endpoints.len(),
        |i: int| endpoints[i].addr,
    ));
}

impl CoreClient {
    /// Where a request still has to be sent.
    pub fn missing_targets(resolved: &ResolvedTargets, seen: &Responders) -> (addrs: Vec<PeerAddr>)
        ensures
            addrs@ == missing(resolved@, resolved@, seen@),
    {
        let targets: &[ServerEndpoint] = resolved.targets();
        let mut addrs: Vec<PeerAddr> = Vec::new();
        let mut i: usize = 0;
        while i < targets.len()
            invariant
                i <= targets@.len(),
                targets@ == resolved@,
                addrs@ == missing(resolved@, targets@.take(i as int), seen@),
            decreases targets@.len() - i,
        {
            let addr: PeerAddr = targets[i].addr;
            assert(targets@.take(i + 1).drop_last() =~= targets@.take(i as int));
            if !seen.has(resolved, addr) {
                addrs.push(addr);
            }
            i = i + 1;
        }
        assert(targets@.take(i as int) =~= targets@);
        addrs
    }
}

/// What is known of one server.
#[derive(Debug, Clone, Copy, PartialEq, Eq, Structural)]
pub struct ServerStats {
    /// When it last responded, or was first heard of, in milliseconds.
    pub last_seen_ms: u64,
    /// How many of its responses were valid.
    pub valid_responses: u64,
    /// How many sends could not reach it.
    pub send_failures: u64,
}

impl ServerStats {
    /// A server that is new at the given time.
    pub open spec fn fresh(now_ms: u64) -> ServerStats {
        ServerStats { last_seen_ms: now_ms, valid_responses: 0, send_failures: 0 }
    }

    /// A server that is new at the given time.
    pub fn new(now_ms: u64) -> (stats: Self)
        ensures
            stats == ServerStats::fresh(now_ms),
    {
        ServerStats { last_seen_ms: now_ms, valid_responses: 0, send_failures: 0 }
    }
}

/// What is known of each server. Its counters start over after `u64::MAX`.
pub struct ServerBook {
    stats: HashMap<u64, ServerStats>,
}

impl View for ServerBook {
    type V = Map<u64, ServerStats>;

    closed spec fn view(&self) -> Map<u64, ServerStats> {
        self.stats@
    }
}

/// What is known of a server, or what a new one starts with.
pub open spec fn known_or_fresh(stats: Map<u64, ServerStats>, id: u64, now_ms: u64) -> ServerStats {
    if stats.contains_key(id) {
        stats[id]
    } else {
        ServerStats::fresh(now_ms)
    }
}

/// One more than a counter, from zero again after the largest.
pub open spec fn counted(counter: u64) -> u64 {
    if counter == u64::MAX {
        0
    } else {
        (counter + 1) as u64
    }
}

/// With one more valid response of a server.
pub open spec fn with_response(stats: Map<u64, ServerStats>, id: u64, now_ms: u64) -> Map<
    u64,
    ServerStats,
> {
    let known = known_or_fresh(stats, id, now_ms);
    stats.insert(
        id,
        ServerStats {
            last_seen_ms: now_ms,
            valid_responses: counted(known.valid_responses),
            send_failures: known.send_failures,
        },
    )
}

/// With one more send that could not reach each of these servers.
pub open spec fn with_failures(stats: Map<u64, ServerStats>, ids: Seq<u64>, now_ms: u64) -> Map<
    u64,
    ServerStats,
>
    decreases ids.len(),
{
    if ids.len() == 0 {
        stats
    } else {
        let before = with_failures(stats, ids.drop_last(), now_ms);
        let known = known_or_fresh(before, ids.last(), now_ms);
        before.insert(
            ids.last(),
            ServerStats { send_failures: counted(known.send_failures), ..known },
        )
    }
}

/// A valid response is counted once, for its server alone, and its time is
/// taken down; the sends that failed before stay counted.
pub proof fn lemma_response_is_counted(
    stats: Map<u64, ServerStats>,
    id: u64,
    now_ms: u64,
    other: u64,
)
    ensures
        ({
            let after = with_response(stats, id, now_ms);
            &&& after.contains_key(id)
            &&& after[id].last_seen_ms == now_ms
            &&& !stats.contains_key(id) ==> after[id].valid_responses == 1
                && after[id].send_failures == 0
            &&& stats.contains_key(id) ==> after[id].send_failures == stats[id].send_failures
            &&& stats.contains_key(id) && stats[id].valid_responses < u64::MAX
                ==> after[id].valid_responses == stats[id].valid_responses + 1
            &&& stats.contains_key(id) && stats[id].valid_responses == u64::MAX
                ==> after[id].valid_responses == 0
            &&& other != id ==> after.contains_key(other) == stats.contains_key(other)
            &&& other != id && stats.contains_key(other) ==> after[other] == stats[other]
        }),
{
}

/// Each send that fails is counted once, for its server alone; when the server
/// last responded and how often stay as they were.
pub proof fn lemma_failure_is_counted(
    stats: Map<u64, ServerStats>,
    ids: Seq<u64>,
    id: u64,
    now_ms: u64,
    other: u64,
)
    ensures
        with_failures(stats, Seq::empty(), now_ms) == stats,
        ({
            let before = with_failures(stats, ids, now_ms);
            let after = with_failures(stats, ids.push(id), now_ms);
            &&& after.contains_key(id)
            &&& !before.contains_key(id) ==> after[id].last_seen_ms == now_ms
                && after[id].valid_responses == 0 && after[id].send_failures == 1
            &&& before.contains_key(id) ==> after[id].last_seen_ms == before[id].last_seen_ms
                && after[id].valid_responses == before[id].valid_responses
            &&& before.contains_key(id) && before[id].send_failures < u64::MAX
                ==> after[id].send_failures == before[id].send_failures + 1
            &&& before.contains_key(id) && before[id].send_failures == u64::MAX
                ==> after[id].send_failures == 0
            &&& other != id ==> after.contains_key(other) == before.contains_key(other)
            &&& other != id && before.contains_key(other) ==> after[other] == before[other]
        }),
{
    assert(ids.push(id).drop_last() =~= ids);
}

impl ServerBook {
    /// Nothing is known yet.
    pub fn new() -> (book: Self)
        ensures
            book@ == Map::<u64, ServerStats>::empty(),
    {
        ServerBook { stats: HashMap::new() }
    }

    /// What is known of a server.
    pub fn stats_of(&self, server_id: u64) -> (stats: Option<ServerStats>)
        ensures
            stats == (if self@.contains_key(server_id) {
                Some(self@[server_id])
            } else {
                None
            }),
    {
        match self.stats.get(&server_id) {
            Some(stats) => Some(*stats),
            None => None,
        }
    }

    /// What is known of a server, or what a new one starts with.
    fn entry(&self, server_id: u64, now_ms: u64) -> (stats: ServerStats)
        ensures
            stats == known_or_fresh(self@, server_id, now_ms),
    {
        match self.stats_of(server_id) {
            Some(stats) => stats,
            None => ServerStats::new(now_ms),
        }
    }

    /// Counts a valid response.
    pub fn record_response(&mut self, server_id: u64, now_ms: u64)
        ensures
            final(self)@ == with_response(old(self)@, server_id, now_ms),
    {
        let known: ServerStats = self.entry(server_id, now_ms);
        let stats: ServerStats = ServerStats {
            last_seen_ms: now_ms,
            valid_responses: known.valid_responses.wrapping_add(1),
            send_failures: known.send_failures,
        };
        self.stats.insert(server_id, stats);
    }

    /// Counts endpoints that a send could not reach.
    pub fn record_send_failures(&mut self, server_ids: &[u64], now_ms: u64)
        ensures
            final(self)@ == with_failures(old(self)@, server_ids@, now_ms),
    {
        let ghost before = self@;
        let mut i: usize = 0;
        assert(server_ids@.take(0) =~= Seq::<u64>::empty());
        while i < server_ids.len()
            invariant
                i <= server_ids@.len(),
                self@ == with_failures(before, server_ids@.take(i as int), now_ms),
            decreases server_ids@.len() - i,
        {
            let id: u64 = server_ids[i];
            let known: ServerStats = self.entry(id, now_ms);
            let stats: ServerStats = ServerStats {
                last_seen_ms: known.last_seen_ms,
                valid_responses: known.valid_responses,
                send_failures: known.send_failures.wrapping_add(1),
            };
            assert(server_ids@.take(i + 1).drop_last() =~= server_ids@.take(i as int));
            self.stats.insert(id, stats);
            i = i + 1;
        }
        assert(server_ids@.take(i as int) =~= server_ids@);
    }
}

/// The result of a packet that counts as a response: its header names a server
/// that is allowed, and all of it is valid.
pub open spec fn accepted(
    setup: CoreClientView,
    membership: Seq<ServerEndpoint>,
    data: Seq<u8>,
) -> Option<RateLimitResultView> {
    let ids = discovery::known_ids(membership);
    match response_wire::peeked_server_id(data) {
        Some(id) => if ids.is_empty() || ids.contains(id) {
            match response_wire::response_parsed(
                data,
                setup.auth_method,
                response_wire::secret_bytes(client::cookie_of(setup.auth_method)),
                response_wire::secret_bytes(client::aes_key_of(setup.auth_method)),
            ) {
                Ok(result) => Some(result),
                Err(_) => None,
            }
        } else {
            None
        },
        None => None,
    }
}

/// A packet counts as a response exactly if it is a valid response under the
/// credentials of the client, and the server that it names is a member or no
/// member is known by its identifier; the result is what the packet says.
pub proof fn lemma_which_packets_count(
    setup: CoreClientView,
    membership: Seq<ServerEndpoint>,
    data: Seq<u8>,
    result: RateLimitResultView,
)
    ensures
        accepted(setup, membership, data) == Some(result) <==> {
            &&& response_wire::response_parsed(
                data,
                setup.auth_method,
                match setup.auth_method {
                    AuthMethod::Cookie(secret) => Some(secret@),
                    _ => None,
                },
                match setup.auth_method {
                    AuthMethod::AesGcm(secret) => Some(secret@),
                    _ => None,
                },
            ) matches Ok(parsed) && parsed == result
            &&& (forall|i: int|
                0 <= i < membership.len() ==> (#[trigger] membership[i]).server_id is None) || (
            exists|i: int|
                0 <= i < membership.len() && (#[trigger] membership[i]).server_id == Some(
                    result.server_id,
                ))
        },
{
    let ids = discovery::known_ids(membership);
    response_wire::lemma_parsed_server_is_peeked(
        data,
        setup.auth_method,
        response_wire::secret_bytes(client::cookie_of(setup.auth_method)),
        response_wire::secret_bytes(client::aes_key_of(setup.auth_method)),
    );
    assert(ids.is_empty() <==> forall|i: int|
        0 <= i < membership.len() ==> (#[trigger] membership[i]).server_id is None) by {
        if ids.is_empty() {
            assert forall|i: int| 0 <= i < membership.len() implies (
            #[trigger] membership[i]).server_id is None by {
                if let Some(id) = membership[i].server_id {
                    assert(ids.contains(id));
                }
            }
        } else {
            let id = choose|id: u64| ids.contains(id);
            assert(ids.contains(id)) by {
                if forall|id: u64| !ids.contains(id) {
                    assert(ids =~= Set::empty());
                }
            }
        }
    }
}

/// A response that counts is from a member, unless no member is known by its
/// identifier.
pub proof fn lemma_accepted_is_known(
    setup: CoreClientView,
    membership: Seq<ServerEndpoint>,
    data: Seq<u8>,
)
    ensures
        accepted(setup, membership, data) matches Some(result) ==> {
            ||| discovery::known_ids(membership).is_empty()
            ||| discovery::known_ids(membership).contains(result.server_id)
        },
{
    response_wire::lemma_parsed_server_is_peeked(
        data,
        setup.auth_method,
        response_wire::secret_bytes(client::cookie_of(setup.auth_method)),
        response_wire::secret_bytes(client::aes_key_of(setup.auth_method)),
    );
}

/// A response that counts is from a member, and so not from a server older
/// than the oldest member.
pub proof fn lemma_accepted_is_from_member(
    setup: CoreClientView,
    membership: Seq<ServerEndpoint>,
    data: Seq<u8>,
    oldest: u64,
)
    requires
        discovery::is_oldest(discovery::known_ids(membership), Some(oldest)),
    ensures
        accepted(setup, membership, data) matches Some(result) ==> {
            &&& discovery::known_ids(membership).contains(result.server_id)
            &&& result.server_id == oldest || selection::older(oldest, result.server_id)
        },
{
    lemma_accepted_is_known(setup, membership, data);
    assert(discovery::known_ids(membership).contains(oldest));
    if let Some(result) = accepted(setup, membership, data) {
        selection::lemma_age_follows_identifiers(result.server_id, oldest);
        selection::lemma_age_follows_identifiers(oldest, result.server_id);
    }
}

impl CoreClient {
    /// Takes a packet in: a response that counts is handed out, and its server
    /// is taken down as a responder.
    pub fn accept_policy_response(
        &self,
        data: &[u8],
        addr: PeerAddr,
        resolved: &ResolvedTargets,
        seen: &mut Responders,
        book: &mut ServerBook,
        now_ms: u64,
    ) -> (response: Option<RateLimitResult>)
        ensures
            match response {
                Some(result) => {
                    &&& accepted(self@, resolved@, data@) == Some(result@)
                    &&& final(seen)@ == old(seen)@.with(result.server_id, addr)
                    &&& final(book)@ == with_response(old(book)@, result.server_id, now_ms)
                },
                None => {
                    &&& accepted(self@, resolved@, data@) is None
                    &&& final(seen)@ == old(seen)@
                    &&& final(book)@ == old(book)@
                },
            },
    {
        let server_id: u64 = match CoreClient::peek_server_id(data) {
            Some(id) => id,
            None => return None,
        };
        if !resolved.allows(server_id) {
            return None;
        }
        match self.parse_rate_response(data) {
            Ok(result) => {
                seen.record(result.server_id, addr);
                book.record_response(result.server_id, now_ms);
                Some(result)
            },
            Err(_) => None,
        }
    }
}

/// What became of sending one packet to several addresses.
pub struct Delivery {
    delivered: bool,
    failed_server_ids: Vec<u64>,
    last_error: Option<io::Error>,
}

/// The content of a [`Delivery`].
pub ghost struct DeliveryView {
    /// Whether any send got out.
    pub delivered: bool,
    /// The servers that sends could not reach.
    pub failed_server_ids: Seq<u64>,
    /// The last failure.
    pub last_error: Option<io::Error>,
}

impl View for Delivery {
    type V = DeliveryView;

    closed spec fn view(&self) -> DeliveryView {
        DeliveryView {
            delivered: self.delivered,
            failed_server_ids: self.failed_server_ids@,
            last_error: self.last_error,
        }
    }
}

impl DeliveryView {
    /// Nothing was sent.
    pub open spec fn initial() -> DeliveryView {
        DeliveryView { delivered: false, failed_server_ids: Seq::empty(), last_error: None }
    }

    /// After a send that got out.
    pub open spec fn with_success(self) -> DeliveryView {
        DeliveryView { delivered: true, ..self }
    }

    /// After a send that failed.
    pub open spec fn with_failure(self, server_id: Option<u64>, error: io::Error) -> DeliveryView {
        DeliveryView {
            delivered: self.delivered,
            failed_server_ids: match server_id {
                Some(id) => self.failed_server_ids.push(id),
                None => self.failed_server_ids,
            },
            last_error: Some(error),
        }
    }

    /// Whether the sends failed altogether: some were tried and none got out.
    pub open spec fn failed(self) -> bool {
        !self.delivered && self.last_error is Some
    }
}

impl Delivery {
    /// Nothing was sent.
    pub fn new() -> (delivery: Self)
        ensures
            delivery@ == DeliveryView::initial(),
    {
        Delivery { delivered: false, failed_server_ids: Vec::new(), last_error: None }
    }

    /// Takes a send that got out down.
    pub fn sent(&mut self)
        ensures
            final(self)@ == old(self)@.with_success(),
    {
        self.delivered = true;
    }

    /// Takes a send that failed down, with the server that it was for.
    pub fn failed(&mut self, server_id: Option<u64>, error: io::Error)
        ensures
            final(self)@ == old(self)@.with_failure(server_id, error),
    {
        if let Some(id) = server_id {
            self.failed_server_ids.push(id);
        }
        self.last_error = Some(error);
    }

    /// The outcome. One unreachable address does not fail the operation: only
    /// if nothing got out at all is the last error returned. Otherwise the
    /// servers that could not be reached are returned.
    pub fn finish(self) -> (outcome: Result<Vec<u64>, CoreError>)
        ensures
            match outcome {
                Ok(unreached) => !self@.failed() && unreached@ == (if self@.delivered {
                    self@.failed_server_ids
                } else {
                    Seq::empty()
                }),
                Err(e) => self@.failed() && e == CoreError::Io(self@.last_error->0),
            },
    {
        if self.delivered {
            return Ok(self.failed_server_ids);
        }
        match self.last_error {
            Some(error) => Err(CoreError::Io(error)),
            None => Ok(Vec::new()),
        }
    }
}

/// What becomes of sends one after the other, each with the server that it was
/// for and the error that it failed with, if it did.
pub open spec fn after_sends(sends: Seq<(Option<u64>, Option<io::Error>)>) -> DeliveryView
    decreases sends.len(),
{
    if sends.len() == 0 {
        DeliveryView::initial()
    } else {
        let before = after_sends(sends.drop_last());
        match sends.last().1 {
            None => before.with_success(),
            Some(error) => before.with_failure(sends.last().0, error),
        }
    }
}

/// Sends are taken down one by one: one that got out changes nothing but that
/// something did; one that failed adds its server, if it is known, behind those
/// before it, and its error is the last one.
pub proof fn lemma_sends_are_taken_down(
    sends: Seq<(Option<u64>, Option<io::Error>)>,
    server_id: Option<u64>,
    error: io::Error,
)
    ensures
        ({
            let before = after_sends(sends);
            let sent = after_sends(sends.push((server_id, None)));
            let failed = after_sends(sends.push((server_id, Some(error))));
            &&& sent.delivered
            &&& sent.failed_server_ids == before.failed_server_ids
            &&& sent.last_error == before.last_error
            &&& failed.delivered == before.delivered
            &&& failed.last_error == Some(error)
            &&& failed.failed_server_ids == match server_id {
                Some(id) => before.failed_server_ids.push(id),
                None => before.failed_server_ids,
            }
            &&& after_sends(Seq::empty()).failed_server_ids.len() == 0
            &&& after_sends(Seq::empty()).last_error is None
        }),
{
    assert(sends.push((server_id, None)).drop_last() =~= sends);
    assert(sends.push((server_id, Some(error))).drop_last() =~= sends);
}

/// An operation fails only if nothing got out at all: one send that does keeps
/// it from failing, whatever fails before or after it.
pub proof fn lemma_one_delivery_suffices(sends: Seq<(Option<u64>, Option<io::Error>)>)
    ensures
        after_sends(sends).failed() <==> sends.len() > 0 && forall|i: int|
            0 <= i < sends.len() ==> (#[trigger] sends[i]).1 is Some,
        after_sends(sends).delivered <==> exists|i: int|
            0 <= i < sends.len() && (#[trigger] sends[i]).1 is None,
    decreases sends.len(),
{
    if sends.len() > 0 {
        let head = sends.drop_last();
        lemma_one_delivery_suffices(head);
        assert forall|i: int| 0 <= i < head.len() implies head[i] == #[trigger] sends[i] by {}
        assert(sends[sends.len() - 1] == sends.last());
        if after_sends(head).delivered {
            let i = choose|i: int| 0 <= i < head.len() && (#[trigger] head[i]).1 is None;
            assert(sends[i].1 is None);
        }
    }
}

} // verus!
