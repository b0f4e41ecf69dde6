//! The public interface: clients, requests, reports.

use std::sync::Arc;
use std::time::Duration;

use vstd::arithmetic::power;
use vstd::prelude::*;
use vstd::slice::slice_subrange;
use vstd::utf8;

use crate::api_key::{ApiKey, ApiKeyView};
use crate::buffer;
use crate::client;
use crate::client::{Admission, CoreClient, CoreClientView};
use crate::config::{ApiKeyConfig, CoreConfig, PeerAddr};
use crate::crypto;
use crate::delivery;
use crate::discovery::ServerEndpoint;
use crate::duration;
use crate::error::{ConfigurationError, Error};
use crate::model::{
    duration_to_u32_ms, Decision, LatencyTracker, LatencyTrackerView, Resource, ResourceView,
    Response, ResponseView,
};
use crate::protocol;
use crate::protocol::{
    LatencyGuard, RateLimitResultView, ResourceRequest, ServiceLatencyReport,
};
use crate::request_policy;
use crate::request_policy::{RequestPolicy, RequestPolicyView};
use crate::request_wire;
use crate::request_wire::OutgoingPacket;
use crate::response_wire;
use crate::text;
use crate::wire;

verus! {

/// The most bytes that a metrics label may have.
pub const MAX_METRICS_LABEL_LEN: usize = 65_526;

/// The most resources, and the most guards, that a request may have.
pub const MAX_REQUEST_ENTRIES: usize = 65_535;

/// The longest label that a request accepts is the longest that the wire can
/// hold.
pub proof fn lemma_labels_are_as_long_as_the_wire_allows(label: Seq<u8>)
    ensures
        request_wire::label_error(label) is None <==> label.len() <= MAX_METRICS_LABEL_LEN,
        MAX_METRICS_LABEL_LEN == 65_526,
{
    request_wire::lemma_longest_label(label);
}

/// A label of a DNS name: letters, digits and hyphens, no hyphen at either
/// end.
pub open spec fn valid_label(label: Seq<u8>) -> bool {
    &&& 1 <= label.len() <= 63
    &&& label[0] != 45
    &&& label.last() != 45
    &&& forall|i: int| 0 <= i < label.len() ==> #[trigger] label_byte(label[i])
}

/// A byte that may stand in a label.
pub open spec fn label_byte(byte: u8) -> bool {
    48 <= byte <= 57 || 65 <= byte <= 90 || 97 <= byte <= 122 || byte == 45
}

/// Whether labels, separated by dots, are all valid.
pub open spec fn all_labels_valid(bytes: Seq<u8>) -> bool
    decreases bytes.len(),
{
    let label = text::first_label(bytes);
    valid_label(label) && if label.len() >= bytes.len() {
        true
    } else {
        all_labels_valid(bytes.skip((label.len() + 1) as int))
    }
}

/// Whether text is an ASCII DNS name of at most 253 bytes, without a final
/// dot.
pub open spec fn is_dns_name(domain: Seq<char>) -> bool {
    let bytes = utf8::encode_utf8(domain);
    1 <= bytes.len() <= 253 && all_labels_valid(bytes)
}

/// Whether one label is valid.
fn is_valid_label(label: &[u8]) -> (valid: bool)
    ensures
        valid == valid_label(label@),
{
    if label.len() == 0 || label.len() > 63 {
        return false;
    }
    if label[0] == 45 || label[label.len() - 1] == 45 {
        return false;
    }
    let mut i: usize = 0;
    while i < label.len()
        invariant
            i <= label@.len(),
            forall|j: int| 0 <= j < i ==> #[trigger] label_byte(label@[j]),
        decreases label@.len() - i,
    {
        let byte: u8 = label[i];
        if !((48 <= byte && byte <= 57) || (65 <= byte && byte <= 90) || (97 <= byte && byte <= 122)
            || byte == 45) {
            assert(!label_byte(label@[i as int]));
            return false;
        }
        i = i + 1;
    }
    true
}

/// Whether text is a DNS name that services can be discovered under.
pub fn valid_dns_name(domain: &str) -> (valid: bool)
    ensures
        valid == is_dns_name(domain@),
{
    let bytes: &[u8] = domain.as_bytes();
    if bytes.len() == 0 || bytes.len() > 253 {
        return false;
    }
    let mut from: usize = 0;
    assert(bytes@.skip(0) =~= bytes@);
    while from <= bytes.len()
        invariant
            from <= bytes@.len(),
            bytes@ == utf8::encode_utf8(domain@),
            1 <= bytes@.len() <= 253,
            all_labels_valid(bytes@) == all_labels_valid(bytes@.skip(from as int)),
        decreases bytes@.len() - from,
    {
        let end: usize = text::label_end(bytes, from);
        let label: &[u8] = slice_subrange(bytes, from, end);
        proof {
            let rest = bytes@.skip(from as int);
            let n = end - from;
            assert forall|i: int| 0 <= i < n implies #[trigger] rest[i] != 46 by {
                assert(bytes@[from + i] != 46);
            }
            text::lemma_first_label(rest, n);
            assert(rest.take(n) =~= label@);
            if end < bytes@.len() {
                assert(rest.skip(n + 1) =~= bytes@.skip(end + 1));
            }
        }
        if !is_valid_label(label) {
            return false;
        }
        if end == bytes.len() {
            return true;
        }
        from = end + 1;
    }
    false
}

/// The domain that a key's service is found under.
pub open spec fn default_domain(key_id: u64) -> Seq<char> {
    "c-"@ + text::decimal_text(key_id as nat) + ".p0.ratelimitly.com"@
}

/// A valid label in front of valid labels makes valid labels.
proof fn lemma_label_in_front(label: Seq<u8>, rest: Seq<u8>)
    requires
        valid_label(label),
        all_labels_valid(rest),
    ensures
        all_labels_valid(label + seq![46u8] + rest),
{
    let bytes = label + seq![46u8] + rest;
    let n = label.len() as int;
    assert forall|i: int| 0 <= i < n implies #[trigger] bytes[i] != 46 by {
        assert(label_byte(label[i]));
    }
    text::lemma_first_label(bytes, n);
    assert(bytes.take(n) =~= label);
    assert(bytes.skip(n + 1) =~= rest);
}

/// A valid label is a valid list of labels.
proof fn lemma_one_label(label: Seq<u8>)
    requires
        valid_label(label),
    ensures
        all_labels_valid(label),
{
    assert forall|i: int| 0 <= i < label.len() implies #[trigger] label[i] != 46 by {
        assert(label_byte(label[i]));
    }
    text::lemma_first_label(label, label.len() as int);
    assert(label.take(label.len() as int) =~= label);
}

/// The domain of every key is a DNS name.
pub proof fn lemma_default_domain_is_dns_name(key_id: u64)
    ensures
        is_dns_name(default_domain(key_id)),
{
    reveal_strlit("c-");
    reveal_strlit(".p0.ratelimitly.com");
    let digits = text::decimal_text(key_id as nat);
    let domain = default_domain(key_id);
    let tail = ".p0.ratelimitly.com"@;
    text::lemma_decimal_digits(key_id as nat);
    text::lemma_decimal_round_trip(key_id as nat);
    assert(power::pow(10, 20) == 100_000_000_000_000_000_000) by {
        reveal_with_fuel(power::pow, 21);
    }
    text::lemma_decimal_len(key_id as nat, 20);
    let n = (2 + digits.len()) as int;
    assert forall|i: int| 0 <= i < domain.len() implies '\0' <= #[trigger] domain[i] <= '\u{7f}' by {
        if i >= n {
            assert(domain[i] == tail[i - n]);
        } else if i >= 2 {
            assert(domain[i] == digits[i - 2]);
        }
    }
    utf8::is_ascii_chars_encode_utf8(domain);
    let bytes = utf8::encode_utf8(domain);
    let first = bytes.take(n);
    assert forall|i: int| 0 <= i < first.len() implies #[trigger] label_byte(first[i]) by {
        if i >= 2 {
            assert(domain[i] == digits[i - 2]);
        }
    }
    assert(first.last() == digits.last() as u8);
    let second = seq![112u8, 48];
    let third = seq![114u8, 97, 116, 101, 108, 105, 109, 105, 116, 108, 121];
    let last = seq![99u8, 111, 109];
    lemma_one_label(last);
    lemma_label_in_front(third, last);
    lemma_label_in_front(second, third + seq![46u8] + last);
    lemma_label_in_front(first, second + seq![46u8] + (third + seq![46u8] + last));
    assert forall|i: int| n <= i < bytes.len() implies #[trigger] bytes[i] == tail[i - n] as u8 by {
        assert(domain[i] == tail[i - n]);
    }
    assert(bytes =~= first + seq![46u8] + (second + seq![46u8] + (third + seq![46u8] + last)));
}

/// The domain of a key has the key's identifier in decimal in its first label,
/// and different keys have different domains.
pub proof fn lemma_default_domain_names_the_key(key_id: u64, other: u64)
    ensures
        default_domain(key_id) == "c-"@ + text::decimal_text(key_id as nat)
            + ".p0.ratelimitly.com"@,
        default_domain(key_id) == default_domain(other) ==> key_id == other,
{
    let (a, b) = (text::decimal_text(key_id as nat), text::decimal_text(other as nat));
    let (x, y) = (default_domain(key_id), default_domain(other));
    let n = "c-"@.len() as int;
    let tail = ".p0.ratelimitly.com"@;
    assert(x.len() == n + a.len() + tail.len());
    assert(y.len() == n + b.len() + tail.len());
    if x == y {
        assert(x.subrange(n, n + a.len()) =~= a);
        assert(y.subrange(n, n + b.len()) =~= b);
        text::lemma_decimal_round_trip(key_id as nat);
        text::lemma_decimal_round_trip(other as nat);
    }
}

/// Whether a dot is among the 64 bytes from a position on.
pub open spec fn dot_within_64(bytes: Seq<u8>, from: int) -> bool {
    exists|j: int| from <= j < from + 64 && #[trigger] bytes[j] == 46
}

/// Whether bytes are letters, digits, hyphens and dots, with no dot or hyphen
/// at either end, no dot next to another dot or to a hyphen, and never more
/// than 63 bytes without a dot.
pub open spec fn dotted_labels(bytes: Seq<u8>) -> bool {
    &&& bytes.len() > 0
    &&& bytes[0] != 45 && bytes[0] != 46
    &&& bytes[bytes.len() - 1] != 45 && bytes[bytes.len() - 1] != 46
    &&& forall|i: int|
        0 <= i < bytes.len() ==> {
            let b = #[trigger] bytes[i];
            48 <= b <= 57 || 65 <= b <= 90 || 97 <= b <= 122 || b == 45 || b == 46
        }
    &&& forall|i: int|
        0 < i < bytes.len() - 1 && #[trigger] bytes[i] == 46 ==> bytes[i - 1] != 45 && bytes[i - 1]
            != 46 && bytes[i + 1] != 45 && bytes[i + 1] != 46
    &&& forall|i: int| 0 <= i && i + 64 <= bytes.len() ==> #[trigger] dot_within_64(bytes, i)
}

/// The first label of bytes, and what follows it.
proof fn lemma_first_dot(bytes: Seq<u8>) -> (n: int)
    ensures
        0 <= n <= bytes.len(),
        n == text::first_label(bytes).len(),
        text::first_label(bytes) == bytes.take(n),
        forall|i: int| 0 <= i < n ==> #[trigger] bytes[i] != 46,
        n == bytes.len() || bytes[n] == 46,
    decreases bytes.len(),
{
    if bytes.len() == 0 || bytes[0] == 46 {
        assert(bytes.take(0) =~= Seq::<u8>::empty());
        0
    } else {
        let rest = bytes.skip(1);
        let m = lemma_first_dot(rest);
        assert forall|i: int| 0 <= i < m + 1 implies #[trigger] bytes[i] != 46 by {
            if i > 0 {
                assert(rest[i - 1] == bytes[i]);
            }
        }
        assert(bytes.take(m + 1) =~= seq![bytes[0]] + rest.take(m));
        m + 1
    }
}

/// Valid labels, all of them, are dotted labels.
proof fn lemma_valid_labels_are_dotted(bytes: Seq<u8>)
    requires
        all_labels_valid(bytes),
    ensures
        dotted_labels(bytes),
    decreases bytes.len(),
{
    let n = lemma_first_dot(bytes);
    let label = bytes.take(n);
    assert(valid_label(label));
    assert forall|i: int| 0 <= i < n implies label_byte(#[trigger] bytes[i]) by {
        assert(label_byte(label[i]));
    }
    assert(label[0] == bytes[0] && label.last() == bytes[n - 1]);
    if n < bytes.len() {
        let rest = bytes.skip(n + 1);
        lemma_valid_labels_are_dotted(rest);
        assert(forall|i: int| 0 <= i < rest.len() ==> #[trigger] rest[i] == bytes[n + 1 + i]);
        assert forall|i: int| n < i < bytes.len() implies #[trigger] bytes[i] == rest[i - n - 1] by {}
        assert forall|i: int|
            0 < i < bytes.len() - 1 && #[trigger] bytes[i] == 46 implies bytes[i - 1] != 45
            && bytes[i - 1] != 46 && bytes[i + 1] != 45 && bytes[i + 1] != 46 by {
            if i > n {
                let k = i - n - 1;
                assert(rest[k] == 46);
                assert(rest[0] != 46);
                assert(rest[k - 1] == bytes[i - 1] && rest[k + 1] == bytes[i + 1]);
            } else {
                assert(i == n);
                assert(rest[0] == bytes[n + 1]);
            }
        }
        assert forall|i: int| 0 <= i && i + 64 <= bytes.len() implies #[trigger] dot_within_64(
            bytes,
            i,
        ) by {
            if i <= n {
                assert(bytes[n] == 46);
            } else {
                assert(dot_within_64(rest, i - n - 1));
                let j = choose|j: int| i - n - 1 <= j < i - n - 1 + 64 && #[trigger] rest[j] == 46;
                assert(bytes[j + n + 1] == 46);
            }
        }
    }
}

/// Dotted labels are valid, all of them.
proof fn lemma_dotted_labels_are_valid(bytes: Seq<u8>)
    requires
        dotted_labels(bytes),
    ensures
        all_labels_valid(bytes),
    decreases bytes.len(),
{
    let n = lemma_first_dot(bytes);
    let label = bytes.take(n);
    if n >= 64 {
        assert(dot_within_64(bytes, 0));
        let j = choose|j: int| 0 <= j < 64 && #[trigger] bytes[j] == 46;
        assert(bytes[j] != 46);
    }
    assert(n > 0);
    assert forall|i: int| 0 <= i < n implies #[trigger] label_byte(label[i]) by {
        assert(bytes[i] != 46);
    }
    assert(label[0] == bytes[0] && label.last() == bytes[n - 1]);
    if n < bytes.len() {
        assert(bytes[n] == 46);
        assert(n < bytes.len() - 1);
        let rest = bytes.skip(n + 1);
        assert(rest[0] == bytes[n + 1] && rest[rest.len() - 1] == bytes[bytes.len() - 1]);
        assert forall|i: int| 0 <= i < rest.len() implies {
            let b = #[trigger] rest[i];
            48 <= b <= 57 || 65 <= b <= 90 || 97 <= b <= 122 || b == 45 || b == 46
        } by {
            assert(rest[i] == bytes[n + 1 + i]);
        }
        assert forall|i: int|
            0 < i < rest.len() - 1 && #[trigger] rest[i] == 46 implies rest[i - 1] != 45 && rest[i
            - 1] != 46 && rest[i + 1] != 45 && rest[i + 1] != 46 by {
            let k = n + 1 + i;
            assert(bytes[k] == 46);
            assert(rest[i - 1] == bytes[k - 1] && rest[i + 1] == bytes[k + 1]);
        }
        assert forall|i: int| 0 <= i && i + 64 <= rest.len() implies #[trigger] dot_within_64(
            rest,
            i,
        ) by {
            assert(dot_within_64(bytes, i + n + 1));
            let j = choose|j: int| i + n + 1 <= j < i + n + 1 + 64 && #[trigger] bytes[j] == 46;
            assert(rest[j - n - 1] == 46);
        }
        lemma_dotted_labels_are_valid(rest);
    }
}

/// Which texts are DNS names: at most 253 bytes, all of them letters, digits,
/// hyphens and dots; no dot or hyphen at either end, no dot next to another dot
/// or to a hyphen, and never more than 63 bytes without a dot.
pub proof fn lemma_which_texts_are_dns_names(domain: Seq<char>)
    ensures
        is_dns_name(domain) <==> utf8::encode_utf8(domain).len() <= 253 && dotted_labels(
            utf8::encode_utf8(domain),
        ),
{
    let bytes = utf8::encode_utf8(domain);
    if bytes.len() > 0 && all_labels_valid(bytes) {
        lemma_valid_labels_are_dotted(bytes);
    }
    if dotted_labels(bytes) {
        lemma_dotted_labels_are_valid(bytes);
    }
}

/// The domain that a key's service is found under.
fn default_service_domain(key_id: u64) -> (domain: String)
    ensures
        domain@ == default_domain(key_id),
{
    let mut domain: String = "c-".to_owned();
    let digits: String = text::decimal(key_id);
    domain.append(digits.as_str());
    domain.append(".p0.ratelimitly.com");
    domain
}

/// A reusable Ratelimitly client.
///
/// Construct a client with [`Client::builder`], then reuse or clone it across
/// concurrent requests.
pub struct Client {
    inner: Arc<CoreClient>,
}

impl View for Client {
    type V = CoreClientView;

    closed spec fn view(&self) -> CoreClientView {
        self.inner@
    }
}

impl Clone for Client {
    fn clone(&self) -> (copy: Self)
        ensures
            copy@ == self@,
    {
        proof {
            use_type_invariant(self);
        }
        Client { inner: self.inner.clone() }
    }
}

impl Client {
    /// Every client discovers its servers under a DNS name.
    #[verifier::type_invariant]
    spec fn discoverable(self) -> bool {
        is_dns_name(self.inner@.service_domain)
    }

    /// Starts a builder using one validated API key.
    pub fn builder(api_key: ApiKey) -> (builder: ClientBuilder)
        ensures
            builder@ == (ClientBuilderView {
                api_key: api_key@,
                service_domain: default_domain(api_key@.key_id),
                request_policy: RequestPolicyView::initial(),
                dns_server: None,
            }),
    {
        proof {
            lemma_default_domain_is_dns_name(api_key@.key_id);
        }
        ClientBuilder {
            service_domain: default_service_domain(api_key.key_id()),
            api_key,
            request_policy: RequestPolicy::default(),
            dns_server: None,
        }
    }

    /// Returns the DNS domain used for Ratelimitly service discovery.
    pub fn service_domain(&self) -> (domain: &str)
        ensures
            domain@ == self@.service_domain,
            is_dns_name(domain@),
    {
        proof {
            use_type_invariant(self);
        }
        self.inner.service_domain()
    }

    /// The protocol core, which sends and receives work with.
    pub fn protocol_core(&self) -> (inner: &CoreClient)
        ensures
            inner@ == self@,
    {
        &self.inner
    }

    /// What diagnostic output shows of a client: its domain alone.
    pub open spec fn shown(service_domain: Seq<char>) -> Seq<char> {
        "Client { service_domain: \""@ + service_domain + "\", .. }"@
    }

    /// The client as diagnostic text, without the credential.
    pub fn debug_text(&self) -> (shown: String)
        ensures
            shown@ == Client::shown(self@.service_domain),
    {
        let mut shown: String = "Client { service_domain: \"".to_owned();
        shown.append(self.service_domain());
        shown.append("\", .. }");
        shown
    }

    /// Starts one resource request.
    pub fn request(&self) -> (request: RequestBuilder<'_>)
        ensures
            request@ == (RequestView {
                setup: self@,
                resources: Seq::empty(),
                guards: Seq::empty(),
                metrics_label: None,
            }),
    {
        RequestBuilder {
            client: self,
            resources: Vec::new(),
            guards: Vec::new(),
            metrics_label: None,
        }
    }

    /// The report of one observed service latency.
    ///
    /// # Errors
    ///
    /// Returns [`Error`] when `observed` is not a positive whole number of
    /// milliseconds.
    pub fn latency_report(tracker: &LatencyTracker, observed: Duration) -> (report: Result<
        ServiceLatencyReport,
        Error,
    >)
        ensures
            match report {
                Ok(r) => {
                    &&& duration::is_whole_millis(observed, u32::MAX as nat)
                    &&& is_report(r, tracker@, duration::millis_of(observed))
                },
                Err(e) => !duration::is_whole_millis(observed, u32::MAX as nat) && e
                    == Error::InvalidConfiguration(
                    ConfigurationError::InvalidDuration { field: "observed latency" },
                ),
            },
            tracker@.valid(),
    {
        let name: &str = tracker.name();
        let observed_latency: u32 = match duration_to_u32_ms(observed, "observed latency") {
            Ok(ms) => ms,
            Err(e) => return Err(e),
        };
        Ok(
            ServiceLatencyReport {
                latency_tracker_name: name.to_owned(),
                observed_latency,
                ttl_ms: tracker.sample_ttl_ms(),
                max_samples: tracker.max_samples(),
                min_sample_threshold: tracker.min_samples(),
            },
        )
    }

    /// The packet that reports one observed service latency. It is to be sent
    /// once to every discovered server, and nothing is to be waited for.
    ///
    /// # Errors
    ///
    /// Returns [`Error`] when `observed` is not a positive whole number of
    /// milliseconds.
    #[verifier::spinoff_prover]
    pub fn prepare_report(&self, tracker: &LatencyTracker, observed: Duration, time_stamp: u64) -> (
    prepared: Result<OutgoingPacket, Error>)
        ensures
            match prepared {
                Ok(outgoing) => {
                    &&& duration::is_whole_millis(observed, u32::MAX as nat)
                    &&& crypto::is_random_uuid(outgoing.request_id@)
                    &&& exists|report: ServiceLatencyReport|
                        is_report(report, tracker@, duration::millis_of(observed))
                            && #[trigger] carries_report(
                            buffer::buffer_bytes(outgoing.packet),
                            self@,
                            outgoing.request_id@,
                            time_stamp,
                            report,
                        )
                },
                Err(e) => !duration::is_whole_millis(observed, u32::MAX as nat) && e
                    == Error::InvalidConfiguration(
                    ConfigurationError::InvalidDuration { field: "observed latency" },
                ),
            },
    {
        let report: ServiceLatencyReport = match Client::latency_report(tracker, observed) {
            Ok(r) => r,
            Err(e) => return Err(e),
        };
        let ghost the_report = report;
        let mut reports: Vec<ServiceLatencyReport> = Vec::new();
        reports.push(report);
        assert(reports@ =~= seq![the_report]);
        match self.inner.prepare_latency_report(reports.as_slice(), time_stamp) {
            Some(Ok(outgoing)) => {
                assert(carries_report(
                    buffer::buffer_bytes(outgoing.packet),
                    self@,
                    outgoing.request_id@,
                    time_stamp,
                    the_report,
                ));
                Ok(outgoing)
            },
            Some(Err(e)) => {
                proof {
                    assert(request_wire::latency_report_len(1) == 36);
                    assert(request_wire::body_error(self@.auth_method, 36) is None);
                    assert(false);
                }
                Err(Error::from(e))
            },
            None => {
                assert(false);
                Err(Error::Protocol)
            },
        }
    }
}

/// A response is a grant exactly if every guard stayed below its threshold and
/// every quantity was supplied, and it names the server that gave it.
pub proof fn lemma_grant_means_every_condition_passed(
    setup: CoreClientView,
    membership: Seq<ServerEndpoint>,
    data: Seq<u8>,
)
    ensures
        delivery::accepted(setup, membership, data) matches Some(result) ==> {
            let response = ResponseView::of_result(result);
            &&& response.decision == Decision::Granted <==> response_wire::all_below(
                response.guard_results,
            ) && response_wire::all_supplied(response.resource_results)
            &&& response.selected_server_id == Some(result.server_id)
        },
{
    response_wire::lemma_success_means_all_conditions(
        data,
        setup.auth_method,
        response_wire::secret_bytes(client::cookie_of(setup.auth_method)),
        response_wire::secret_bytes(client::aes_key_of(setup.auth_method)),
    );
}

/// An empty request is granted as any other would be that asks for nothing, but
/// by no server.
pub proof fn lemma_local_grant()
    ensures
        ResponseView::local_grant() == (ResponseView {
            selected_server_id: None,
            ..ResponseView::of_result(client::local_grant())
        }),
        ResponseView::local_grant().decision == Decision::Granted,
{
}

/// Only the answer to an empty request names no server: whatever a server
/// answered, and whichever server it was, the response names it.
pub proof fn lemma_servers_are_always_named(result: RateLimitResultView)
    ensures
        ResponseView::of_result(result).selected_server_id == Some(result.server_id),
        ResponseView::of_result(result) != ResponseView::local_grant(),
        ResponseView::local_grant().selected_server_id is None,
{
}

/// Whether a report says that a tracker's service took `observed`
/// milliseconds.
pub open spec fn is_report(
    report: ServiceLatencyReport,
    tracker: LatencyTrackerView,
    observed: nat,
) -> bool {
    &&& report.latency_tracker_name@ == tracker.name
    &&& report.observed_latency == observed
    &&& report.ttl_ms == tracker.sample_ttl_ms
    &&& report.max_samples == tracker.max_samples
    &&& report.min_sample_threshold == tracker.min_samples
}

/// Whether a packet carries one report.
pub open spec fn carries_report(
    packet: Seq<u8>,
    setup: CoreClientView,
    request_id: Seq<u8>,
    time_stamp: u64,
    report: ServiceLatencyReport,
) -> bool {
    request_wire::carries(
        packet,
        setup,
        request_id,
        time_stamp,
        request_wire::latency_report_pdu(seq![report]),
    )
}

/// Whether a consumption asks for `tokens` of a resource.
pub open spec fn is_consumption(
    consumption: ResourceRequest,
    resource: ResourceView,
    tokens: u32,
) -> bool {
    &&& consumption.bucket_name@ == resource.name
    &&& consumption.window_size_ms == resource.window_ms
    &&& consumption.rate_limit == resource.rate_limit
    &&& consumption.tokens_requested == tokens
}

/// Whether a guard asks that a tracker's latency be below `threshold`
/// milliseconds.
pub open spec fn is_guard(guard: LatencyGuard, tracker: LatencyTrackerView, threshold: nat) -> bool {
    &&& guard.latency_tracker_name@ == tracker.name
    &&& guard.threshold_ms == threshold
    &&& guard.ttl_ms == tracker.sample_ttl_ms
    &&& guard.max_samples == tracker.max_samples
    &&& guard.min_sample_threshold == tracker.min_samples
}

/// Guards and reports of one tracker meet in its identifier, whatever threshold
/// a guard sets and whatever latency a report carries.
pub proof fn lemma_guards_and_reports_meet(
    tracker: LatencyTrackerView,
    guard: LatencyGuard,
    threshold: nat,
    report: ServiceLatencyReport,
    observed: nat,
)
    requires
        is_guard(guard, tracker, threshold),
        is_report(report, tracker, observed),
    ensures
        request_wire::guarded_tracker_id(guard) == tracker.id(),
        request_wire::reported_tracker_id(report) == tracker.id(),
{
}

/// A consumption is about the rate counter of its resource, however many
/// tokens it asks for.
pub proof fn lemma_consumptions_share_the_counter(
    resource: ResourceView,
    consumption: ResourceRequest,
    tokens: u32,
)
    requires
        is_consumption(consumption, resource, tokens),
    ensures
        request_wire::consumed_bucket_id(consumption) == resource.id(),
{
}

/// The PDU of a request asks for everything that was added to it. It is of the
/// type of requests and tells the horizon of the policy as the time for which
/// servers are to remember the request. It counts the guards and the
/// consumptions exactly and holds each one where it belongs: a guard with the
/// identity, the definition and the threshold that it was added with, a
/// consumption with the identity, the definition and the tokens.
#[verifier::spinoff_prover]
pub proof fn lemma_request_asks_for_all_that_was_added(
    request: RequestView,
    i: int,
    resource: ResourceView,
    tokens: u32,
    tracker: LatencyTrackerView,
    threshold: nat,
)
    requires
        request.setup.request_policy.valid(),
        request.valid(),
        8 + request_wire::rate_request_body(
            request.resources,
            request.guards,
            request.label_bytes(),
        ).len() <= 65_535,
    ensures
        ({
            let pdu = request.pdu();
            let guards = request.guards.len();
            let resources = request.resources.len();
            &&& wire::le_field(pdu, 0, 2) == 0x5452
            &&& wire::le_field(pdu, 2, 2) == pdu.len()
            &&& wire::le_field(pdu, 4, 4) == request.setup.request_policy.horizon()
            &&& wire::le_field(pdu, 8, 2) == guards
            &&& wire::le_field(pdu, 10, 2) == resources
            &&& 0 <= i < guards && is_guard(request.guards[i], tracker, threshold) ==> {
                let at = 12 + 36 * i;
                &&& pdu.subrange(at, at + 16) == tracker.id()
                &&& wire::le_field(pdu, at + 16, 4) == tracker.sample_ttl_ms
                &&& wire::le_field(pdu, at + 20, 4) == tracker.max_samples
                &&& wire::le_field(pdu, at + 24, 4) == tracker.min_samples
                &&& wire::le_field(pdu, at + 28, 4) == threshold
                &&& wire::le_field(pdu, at + 32, 4) == 0
            }
            &&& 0 <= i < resources && is_consumption(request.resources[i], resource, tokens) ==> {
                let at = 12 + 36 * guards + 28 * i;
                &&& pdu.subrange(at, at + 16) == resource.id()
                &&& wire::le_field(pdu, at + 16, 4) == resource.window_ms
                &&& wire::le_field(pdu, at + 20, 4) == resource.rate_limit
                &&& wire::le_field(pdu, at + 24, 2) == tokens
                &&& wire::le_field(pdu, at + 26, 2) == 0
            }
        }),
{
    let (g, r, label) = (request.guards, request.resources, request.label_bytes());
    let body = request_wire::rate_request_body(r, g, label);
    let pdu = request.pdu();
    request_wire::lemma_pdus_of_requests_and_reports(
        request.setup.request_policy.horizon(),
        r,
        g,
        label,
        Seq::empty(),
    );
    request_wire::lemma_counts_are_exact(r, g, label);
    request_wire::lemma_request_body_ends_in_its_label(r, g, label);
    assert(pdu.subrange(8, 10) =~= body.subrange(0, 2));
    assert(pdu.subrange(10, 12) =~= body.subrange(2, 4));
    if 0 <= i < g.len() {
        let at = 4 + 36 * i;
        request_wire::lemma_request_body_holds_every_guard(r, g, label, i);
        lemma_behind_pdu_header(pdu, body, at, 16);
        lemma_behind_pdu_header(pdu, body, at + 16, 4);
        lemma_behind_pdu_header(pdu, body, at + 20, 4);
        lemma_behind_pdu_header(pdu, body, at + 24, 4);
        lemma_behind_pdu_header(pdu, body, at + 28, 4);
        lemma_behind_pdu_header(pdu, body, at + 32, 4);
    }
    if 0 <= i < r.len() {
        let at = 4 + 36 * g.len() + 28 * i;
        request_wire::lemma_request_body_holds_every_consumption(r, g, label, i);
        lemma_behind_pdu_header(pdu, body, at, 16);
        lemma_behind_pdu_header(pdu, body, at + 16, 4);
        lemma_behind_pdu_header(pdu, body, at + 20, 4);
        lemma_behind_pdu_header(pdu, body, at + 24, 2);
        lemma_behind_pdu_header(pdu, body, at + 26, 2);
    }
}

/// What stands in the body of a PDU stands eight bytes further on in the PDU.
proof fn lemma_behind_pdu_header(pdu: Seq<u8>, body: Seq<u8>, at: int, n: int)
    requires
        pdu.len() == 8 + body.len(),
        pdu.skip(8) == body,
        0 <= at,
        0 <= n,
        at + n <= body.len(),
    ensures
        pdu.subrange(8 + at, 8 + at + n) == body.subrange(at, at + n),
        wire::le_field(pdu, 8 + at, n) == wire::le_field(body, at, n),
{
    assert(pdu.subrange(8 + at, 8 + at + n) =~= body.subrange(at, at + n));
}

/// The label of a request stands at the end of its PDU, as its UTF-8 bytes in a
/// record of its own; without a label the PDU ends behind the consumptions.
#[verifier::spinoff_prover]
pub proof fn lemma_request_carries_its_label(request: RequestView)
    requires
        request.valid(),
    ensures
        ({
            let pdu = request.pdu();
            let at = (12 + 36 * request.guards.len() + 28 * request.resources.len()) as int;
            match request.metrics_label {
                None => pdu.len() == at,
                Some(label) => {
                    let text = utf8::encode_utf8(label);
                    &&& wire::le_field(pdu, at, 2) == 0x4C4D
                    &&& wire::le_field(pdu, at + 2, 2) == pdu.len() - at
                    &&& wire::le_field(pdu, at + 4, 2) == text.len()
                    &&& pdu.subrange(at + 6, at + 6 + text.len()) == text
                },
            }
        }),
{
    let (g, r, label) = (request.guards, request.resources, request.label_bytes());
    let at = (4 + 36 * g.len() + 28 * r.len()) as int;
    request_wire::lemma_request_body_ends_in_its_label(r, g, label);
    request_wire::lemma_body_follows_pdu_header(
        protocol::PDU_RATE_REQUEST,
        request.setup.request_policy.horizon(),
        request_wire::rate_request_body(r, g, label),
    );
    if let Some(text) = label {
        lemma_label_behind_pdu_header(
            request.pdu(),
            request_wire::rate_request_body(r, g, label),
            at,
            text,
        );
    }
}

/// A label in the body of a PDU is a label in the PDU, eight bytes further on.
proof fn lemma_label_behind_pdu_header(pdu: Seq<u8>, body: Seq<u8>, at: int, text: Seq<u8>)
    requires
        pdu.len() == 8 + body.len(),
        pdu.skip(8) == body,
        0 <= at,
        at + 6 + text.len() <= body.len(),
        body.subrange(at + 6, at + 6 + text.len()) == text,
    ensures
        wire::le_field(pdu, 8 + at, 2) == wire::le_field(body, at, 2),
        wire::le_field(pdu, 8 + at + 2, 2) == wire::le_field(body, at + 2, 2),
        wire::le_field(pdu, 8 + at + 4, 2) == wire::le_field(body, at + 4, 2),
        pdu.subrange(8 + at + 6, 8 + at + 6 + text.len()) == text,
{
    lemma_behind_pdu_header(pdu, body, at, 2);
    lemma_behind_pdu_header(pdu, body, at + 2, 2);
    lemma_behind_pdu_header(pdu, body, at + 4, 2);
    lemma_behind_pdu_header(pdu, body, at + 6, text.len() as int);
}

/// The PDU of a report is of the type of reports, counts one observation, and
/// holds the identity and the definition of the tracker and the latency that
/// was observed; nothing follows.
#[verifier::spinoff_prover]
pub proof fn lemma_report_tells_what_was_observed(
    report: ServiceLatencyReport,
    tracker: LatencyTrackerView,
    observed: nat,
)
    requires
        is_report(report, tracker, observed),
    ensures
        ({
            let pdu = request_wire::latency_report_pdu(seq![report]);
            &&& pdu.len() == 44
            &&& wire::le_field(pdu, 0, 2) == 0x524C
            &&& wire::le_field(pdu, 2, 2) == 44
            &&& wire::le_field(pdu, 4, 4) == 0
            &&& wire::le_field(pdu, 8, 2) == 1
            &&& wire::le_field(pdu, 10, 2) == 0
            &&& pdu.subrange(12, 28) == tracker.id()
            &&& wire::le_field(pdu, 28, 4) == tracker.sample_ttl_ms
            &&& wire::le_field(pdu, 32, 4) == tracker.max_samples
            &&& wire::le_field(pdu, 36, 4) == tracker.min_samples
            &&& wire::le_field(pdu, 40, 4) == observed
        }),
{
    let reports = seq![report];
    let body = request_wire::latency_report_body(reports);
    let pdu = request_wire::latency_report_pdu(reports);
    request_wire::lemma_report_body_holds_every_observation(reports, 0);
    request_wire::lemma_pdus_of_requests_and_reports(
        0,
        Seq::empty(),
        Seq::empty(),
        None,
        reports,
    );
    lemma_behind_pdu_header(pdu, body, 0, 2);
    lemma_behind_pdu_header(pdu, body, 2, 2);
    lemma_behind_pdu_header(pdu, body, 4, 16);
    lemma_behind_pdu_header(pdu, body, 20, 4);
    lemma_behind_pdu_header(pdu, body, 24, 4);
    lemma_behind_pdu_header(pdu, body, 28, 4);
    lemma_behind_pdu_header(pdu, body, 32, 4);
}

/// A packet carries a report exactly if it carries the PDU of that report, so
/// that a server finds there what was observed.
pub proof fn lemma_report_packet_carries_its_pdu(
    packet: Seq<u8>,
    setup: CoreClientView,
    request_id: Seq<u8>,
    time_stamp: u64,
    report: ServiceLatencyReport,
)
    ensures
        carries_report(packet, setup, request_id, time_stamp, report) <==> request_wire::carries(
            packet,
            setup,
            request_id,
            time_stamp,
            request_wire::latency_report_pdu(seq![report]),
        ),
{
}

/// A response that counts is a grant exactly if, in the results that came with
/// it, every latency found is below its threshold and no token is missing;
/// otherwise it is a rejection. The details are those of the packet.
pub proof fn lemma_decision_follows_from_the_details(
    setup: CoreClientView,
    membership: Seq<ServerEndpoint>,
    data: Seq<u8>,
)
    ensures
        delivery::accepted(setup, membership, data) matches Some(result) ==> {
            let response = ResponseView::of_result(result);
            &&& response.decision is Granted <==> (forall|i: int|
                0 <= i < result.guard_results.len() ==> (
                #[trigger] result.guard_results[i]).current_latency_ms
                    < result.guard_results[i].threshold_ms) && (forall|i: int|
                0 <= i < result.resource_results.len() ==> (
                #[trigger] result.resource_results[i]).tokens_deficit == 0)
            &&& response.decision is Granted || response.decision is Rejected
            &&& response.guard_results == result.guard_results
            &&& response.resource_results == result.resource_results
            &&& response.selected_server_id == Some(result.server_id)
        },
{
    let cookie = response_wire::secret_bytes(client::cookie_of(setup.auth_method));
    let key = response_wire::secret_bytes(client::aes_key_of(setup.auth_method));
    if let Some(result) = delivery::accepted(setup, membership, data) {
        let pos = wire::le_field(data, 2, 2) as int;
        let pdu = response_wire::auth_parsed(data, pos, setup.auth_method, cookie, key)->Ok_0;
        let body = pdu.subrange(8, wire::le_field(pdu, 2, 2) as int);
        response_wire::lemma_response_says_what_the_server_found(
            body,
            result.server_id,
            result.steering_feedback,
        );
    }
}

/// Which consumptions are refused: those of no token or of more than the wire
/// holds, those with a window beyond the key's limit, and those beyond the
/// number that a request may have. What is told is so.
pub proof fn lemma_which_consumptions_are_refused(
    request: RequestView,
    resource: ResourceView,
    tokens: u32,
)
    ensures
        request.resources.len() <= 65_535 ==> (request.consumption_refused(resource, tokens) is None
            <==> 1 <= tokens < 65_536 && resource.window_ms
            <= request.setup.limits.rate_window_size_ms_max && request.resources.len() < 65_535),
        match request.consumption_refused(resource, tokens) {
            None => true,
            Some(ConfigurationError::InvalidTokenQuantity) => tokens == 0 || tokens > 65_535,
            Some(ConfigurationError::ResourceWindowExceedsApiKey) => resource.window_ms
                > request.setup.limits.rate_window_size_ms_max,
            Some(ConfigurationError::TooManyRequestEntries { kind }) => request.resources.len()
                == 65_535 && kind == "resources",
            _ => false,
        },
{
}

/// Which guards are refused: those beyond the number that a request may have,
/// and those with a threshold that is no positive whole number of milliseconds.
/// What is told is so.
pub proof fn lemma_which_guards_are_refused(request: RequestView, threshold: Duration)
    ensures
        request.guards.len() <= 65_535 ==> (request.guard_refused(threshold) is None
            <==> duration::is_whole_millis(threshold, 0xffff_ffff) && request.guards.len()
            < 65_535),
        match request.guard_refused(threshold) {
            None => true,
            Some(ConfigurationError::TooManyRequestEntries { kind }) => request.guards.len()
                == 65_535 && kind == "guards",
            Some(ConfigurationError::InvalidDuration { field }) => !duration::is_whole_millis(
                threshold,
                0xffff_ffff,
            ) && field == "latency threshold",
            _ => false,
        },
{
}

/// What is added to a request is what was asked for.
pub proof fn lemma_entries_are_what_was_asked_for(
    consumption: ResourceRequest,
    resource: ResourceView,
    tokens: u32,
    guard: LatencyGuard,
    tracker: LatencyTrackerView,
    threshold: nat,
    report: ServiceLatencyReport,
    observed: nat,
)
    ensures
        is_consumption(consumption, resource, tokens) ==> {
            &&& consumption.bucket_name@ == resource.name
            &&& consumption.window_size_ms == resource.window_ms
            &&& consumption.rate_limit == resource.rate_limit
            &&& consumption.tokens_requested == tokens
        },
        is_guard(guard, tracker, threshold) ==> {
            &&& guard.latency_tracker_name@ == tracker.name
            &&& guard.ttl_ms == tracker.sample_ttl_ms
            &&& guard.max_samples == tracker.max_samples
            &&& guard.min_sample_threshold == tracker.min_samples
            &&& guard.threshold_ms == threshold
        },
        is_report(report, tracker, observed) ==> {
            &&& report.latency_tracker_name@ == tracker.name
            &&& report.ttl_ms == tracker.sample_ttl_ms
            &&& report.max_samples == tracker.max_samples
            &&& report.min_sample_threshold == tracker.min_samples
            &&& report.observed_latency == observed
        },
{
}

/// Builder for [`Client`].
pub struct ClientBuilder {
    api_key: ApiKey,
    service_domain: String,
    request_policy: RequestPolicy,
    dns_server: Option<PeerAddr>,
}

/// What a [`ClientBuilder`] holds.
pub ghost struct ClientBuilderView {
    pub api_key: ApiKeyView,
    pub service_domain: Seq<char>,
    pub request_policy: RequestPolicyView,
    pub dns_server: Option<PeerAddr>,
}

impl View for ClientBuilder {
    type V = ClientBuilderView;

    closed spec fn view(&self) -> ClientBuilderView {
        ClientBuilderView {
            api_key: self.api_key@,
            service_domain: self.service_domain@,
            request_policy: self.request_policy@,
            dns_server: self.dns_server,
        }
    }
}

impl ClientBuilderView {
    /// The setup of the client that is built: what the key says, servers
    /// discovered anew after a minute, advice on the source port followed.
    pub open spec fn setup(self) -> CoreClientView {
        CoreClientView {
            service_domain: self.service_domain,
            key_id: self.api_key.key_id,
            auth_method: self.api_key.auth_method,
            limits: self.api_key.limits,
            steering_feedback: true,
            dns_refresh_interval_s: 60,
            ignore_steering_feedback: false,
            request_policy: self.request_policy,
            dns_server: self.dns_server,
        }
    }
}

/// A client is set up with what the key says, as it is: identifier, method and
/// limits; with the domain, the policy and the DNS server that were chosen;
/// servers are discovered anew after a minute, advice on the source port is
/// asked for and followed.
pub proof fn lemma_client_follows_its_key(builder: ClientBuilderView)
    ensures
        ({
            let setup = builder.setup();
            &&& setup.key_id == builder.api_key.key_id
            &&& setup.auth_method == builder.api_key.auth_method
            &&& setup.limits == builder.api_key.limits
            &&& setup.service_domain == builder.service_domain
            &&& setup.request_policy == builder.request_policy
            &&& setup.dns_server == builder.dns_server
            &&& setup.dns_refresh_interval_s == 60
            &&& setup.steering_feedback
            &&& !setup.ignore_steering_feedback
        }),
{
}

impl ClientBuilder {
    /// The domain was checked when it was set.
    #[verifier::type_invariant]
    spec fn discoverable(self) -> bool {
        is_dns_name(self.service_domain@)
    }

    /// Overrides the DNS domain used for SRV discovery.
    ///
    /// # Errors
    ///
    /// Returns [`Error`] when the value is not a valid ASCII DNS name.
    pub fn service_domain(self, domain: &str) -> (builder: Result<Self, Error>)
        ensures
            match builder {
                Ok(b) => is_dns_name(domain@) && b@ == (ClientBuilderView {
                    service_domain: domain@,
                    ..self@
                }),
                Err(e) => !is_dns_name(domain@) && e == Error::InvalidConfiguration(
                    ConfigurationError::InvalidServiceDomain,
                ),
            },
    {
        if !valid_dns_name(domain) {
            return Err(Error::InvalidConfiguration(ConfigurationError::InvalidServiceDomain));
        }
        Ok(ClientBuilder { service_domain: domain.to_owned(), ..self })
    }

    /// Selects the request retry and completion policy.
    pub fn request_policy(self, policy: RequestPolicy) -> (builder: Self)
        ensures
            builder@ == (ClientBuilderView { request_policy: policy@, ..self@ }),
    {
        proof {
            use_type_invariant(&self);
        }
        ClientBuilder { request_policy: policy, ..self }
    }

    /// Uses one explicit DNS server instead of the operating-system resolver.
    ///
    /// This is primarily intended for deterministic tests and controlled
    /// development environments. Production clients should normally use the
    /// operating-system resolver so the API-key-derived service domain follows
    /// its configured DNS path.
    pub fn dns_server(self, address: PeerAddr) -> (builder: Self)
        ensures
            builder@ == (ClientBuilderView { dns_server: Some(address), ..self@ }),
    {
        proof {
            use_type_invariant(&self);
        }
        ClientBuilder { dns_server: Some(address), ..self }
    }

    /// Validates the API-key limits and creates the reusable client.
    ///
    /// # Errors
    ///
    /// Returns [`Error`] when the request-policy horizon exceeds the API key.
    pub fn build(self) -> (client: Result<Client, Error>)
        ensures
            match client {
                Ok(c) => c@ == self@.setup() && request_policy::checked_horizon(
                    self@.request_policy,
                    self@.api_key.limits.dedup_ttl_ms_max as nat,
                ) is Ok,
                Err(e) => request_policy::checked_horizon(
                    self@.request_policy,
                    self@.api_key.limits.dedup_ttl_ms_max as nat,
                ) matches Err(reason) && e == Error::InvalidConfiguration(reason),
            },
    {
        proof {
            use_type_invariant(&self);
        }
        let limits = self.api_key.limits();
        match self.request_policy.horizon_ms(limits.dedup_ttl_ms_max) {
            Ok(_) => {},
            Err(e) => return Err(Error::InvalidConfiguration(e)),
        }
        let config: CoreConfig = CoreConfig {
            api_key: ApiKeyConfig {
                service_domain: self.service_domain,
                key_id: self.api_key.key_id(),
                auth_method: self.api_key.auth_method(),
                limits,
                steering_feedback: true,
            },
            dns_refresh_interval_s: 60,
            ignore_steering_feedback: false,
            request_policy: self.request_policy,
            dns_server: self.dns_server,
        };
        match CoreClient::new(config) {
            Ok(inner) => Ok(Client { inner: Arc::new(inner) }),
            Err(e) => Err(Error::from(e)),
        }
    }
}

/// What is to be done about a request.
pub enum RequestAdmission {
    /// It asks for nothing and is answered without asking a server.
    Granted(Response),
    /// Servers decide; the request is to be remembered for this many
    /// milliseconds.
    Ask { dedup_ttl_ms: u32 },
}

/// Builder for one logical resource request.
pub struct RequestBuilder<'a> {
    client: &'a Client,
    resources: Vec<ResourceRequest>,
    guards: Vec<LatencyGuard>,
    metrics_label: Option<String>,
}

/// What a [`RequestBuilder`] holds.
pub ghost struct RequestView {
    /// The setup of the client.
    pub setup: CoreClientView,
    /// The consumptions, in the order in which they were added.
    pub resources: Seq<ResourceRequest>,
    /// The guards, in the order in which they were added.
    pub guards: Seq<LatencyGuard>,
    /// The label.
    pub metrics_label: Option<Seq<char>>,
}

impl<'a> View for RequestBuilder<'a> {
    type V = RequestView;

    closed spec fn view(&self) -> RequestView {
        RequestView {
            setup: self.client@,
            resources: self.resources@,
            guards: self.guards@,
            metrics_label: match self.metrics_label {
                Some(label) => Some(label@),
                None => None,
            },
        }
    }
}

impl RequestView {
    /// Whether the wire can hold the entries, and the key's quota covers them.
    pub open spec fn valid(self) -> bool {
        &&& self.resources.len() <= MAX_REQUEST_ENTRIES
        &&& self.guards.len() <= MAX_REQUEST_ENTRIES
        &&& request_wire::names_fit(self.resources, self.guards)
        &&& forall|i: int|
            0 <= i < self.resources.len() ==> (#[trigger] self.resources[i]).window_size_ms
                <= self.setup.limits.rate_window_size_ms_max
        &&& forall|i: int|
            0 <= i < self.resources.len() ==> (#[trigger] self.resources[i]).tokens_requested > 0
        &&& self.metrics_label matches Some(label) ==> 0 < utf8::encode_utf8(label).len()
            <= MAX_METRICS_LABEL_LEN
    }

    /// The bytes of the label, if there is one.
    pub open spec fn label_bytes(self) -> Option<Seq<u8>> {
        match self.metrics_label {
            Some(label) => Some(utf8::encode_utf8(label)),
            None => None,
        }
    }

    /// The PDU that asks servers for what the request asks.
    pub open spec fn pdu(self) -> Seq<u8> {
        request_wire::rate_request_pdu(
            self.setup.request_policy.horizon(),
            self.resources,
            self.guards,
            self.label_bytes(),
        )
    }

    /// Why a consumption is refused, if it is.
    pub open spec fn consumption_refused(self, resource: ResourceView, tokens: u32) -> Option<
        ConfigurationError,
    > {
        if !(1 <= tokens <= 65_535) {
            Some(ConfigurationError::InvalidTokenQuantity)
        } else if resource.window_ms > self.setup.limits.rate_window_size_ms_max {
            Some(ConfigurationError::ResourceWindowExceedsApiKey)
        } else if self.resources.len() == MAX_REQUEST_ENTRIES {
            Some(ConfigurationError::TooManyRequestEntries { kind: "resources" })
        } else {
            None
        }
    }

    /// Why a guard is refused, if it is.
    pub open spec fn guard_refused(self, threshold: Duration) -> Option<ConfigurationError> {
        if self.guards.len() == MAX_REQUEST_ENTRIES {
            Some(ConfigurationError::TooManyRequestEntries { kind: "guards" })
        } else if !duration::is_whole_millis(threshold, u32::MAX as nat) {
            Some(ConfigurationError::InvalidDuration { field: "latency threshold" })
        } else {
            None
        }
    }
}

impl<'a> RequestBuilder<'a> {
    /// Every entry was checked when it was added.
    #[verifier::type_invariant]
    pub open spec fn checked(self) -> bool {
        self@.valid()
    }

    /// Attaches a stable label used to group this request in API-key metrics.
    /// An empty label is treated as no label.
    ///
    /// # Errors
    ///
    /// Returns [`Error`] when the UTF-8 label cannot fit in its wire TLV.
    pub fn metrics_label(self, label: &str) -> (request: Result<Self, Error>)
        ensures
            match request {
                Ok(r) => utf8::encode_utf8(label@).len() <= MAX_METRICS_LABEL_LEN && r@ == (
                RequestView {
                    metrics_label: if utf8::encode_utf8(label@).len() == 0 {
                        None
                    } else {
                        Some(label@)
                    },
                    ..self@
                }),
                Err(e) => utf8::encode_utf8(label@).len() > MAX_METRICS_LABEL_LEN && e
                    == Error::InvalidConfiguration(ConfigurationError::InvalidMetricsLabel),
            },
    {
        proof {
            use_type_invariant(&self);
        }
        let len: usize = label.as_bytes().len();
        if len > MAX_METRICS_LABEL_LEN {
            return Err(Error::InvalidConfiguration(ConfigurationError::InvalidMetricsLabel));
        }
        let metrics_label: Option<String> = if len == 0 {
            None
        } else {
            Some(label.to_owned())
        };
        Ok(
            RequestBuilder {
                client: self.client,
                resources: self.resources,
                guards: self.guards,
                metrics_label,
            },
        )
    }

    /// Adds one content-defined resource consumption.
    ///
    /// # Errors
    ///
    /// Returns [`Error`] when `tokens` is outside `1..=65535`, the resource
    /// window exceeds the API-key limit, or the request has too many resources.
    pub fn consume(self, resource: &Resource, tokens: u32) -> (request: Result<Self, Error>)
        ensures
            match request {
                Ok(r) => {
                    &&& self@.consumption_refused(resource@, tokens) is None
                    &&& r@.resources.len() == self@.resources.len() + 1
                    &&& r@.resources.drop_last() == self@.resources
                    &&& is_consumption(r@.resources.last(), resource@, tokens)
                    &&& r@ == (RequestView { resources: r@.resources, ..self@ })
                },
                Err(e) => self@.consumption_refused(resource@, tokens) matches Some(reason) && e
                    == Error::InvalidConfiguration(reason),
            },
    {
        proof {
            use_type_invariant(&self);
        }
        if tokens < 1 || tokens > 65_535 {
            return Err(Error::InvalidConfiguration(ConfigurationError::InvalidTokenQuantity));
        }
        if resource.window_ms() > self.client.inner.limits().rate_window_size_ms_max {
            return Err(
                Error::InvalidConfiguration(ConfigurationError::ResourceWindowExceedsApiKey),
            );
        }
        if self.resources.len() == MAX_REQUEST_ENTRIES {
            return Err(
                Error::InvalidConfiguration(
                    ConfigurationError::TooManyRequestEntries { kind: "resources" },
                ),
            );
        }
        let consumption: ResourceRequest = ResourceRequest {
            bucket_name: resource.name().to_owned(),
            window_size_ms: resource.window_ms(),
            rate_limit: resource.rate_limit(),
            tokens_requested: tokens as u16,
        };
        let ghost before = self.resources@;
        let mut resources: Vec<ResourceRequest> = self.resources;
        resources.push(consumption);
        assert(resources@.drop_last() =~= before);
        assert forall|i: int| 0 <= i < resources@.len() implies (
        #[trigger] resources@[i]).window_size_ms <= self@.setup.limits.rate_window_size_ms_max
            && resources@[i].tokens_requested > 0 && utf8::encode_utf8(
            resources@[i].bucket_name@,
        ).len() <= u32::MAX by {
            if i < before.len() {
                assert(resources@[i] == before[i]);
            }
        }
        Ok(
            RequestBuilder {
                client: self.client,
                resources,
                guards: self.guards,
                metrics_label: self.metrics_label,
            },
        )
    }

    /// Adds one latency guard.
    ///
    /// # Errors
    ///
    /// Returns [`Error`] when the threshold is not a positive whole number of
    /// milliseconds or the request has too many guards.
    pub fn guard(self, tracker: &LatencyTracker, threshold: Duration) -> (request: Result<
        Self,
        Error,
    >)
        ensures
            match request {
                Ok(r) => {
                    &&& self@.guard_refused(threshold) is None
                    &&& r@.guards.len() == self@.guards.len() + 1
                    &&& r@.guards.drop_last() == self@.guards
                    &&& is_guard(r@.guards.last(), tracker@, duration::millis_of(threshold))
                    &&& r@ == (RequestView { guards: r@.guards, ..self@ })
                },
                Err(e) => self@.guard_refused(threshold) matches Some(reason) && e
                    == Error::InvalidConfiguration(reason),
            },
    {
        proof {
            use_type_invariant(&self);
        }
        if self.guards.len() == MAX_REQUEST_ENTRIES {
            return Err(
                Error::InvalidConfiguration(
                    ConfigurationError::TooManyRequestEntries { kind: "guards" },
                ),
            );
        }
        let threshold_ms: u32 = match duration_to_u32_ms(threshold, "latency threshold") {
            Ok(ms) => ms,
            Err(e) => return Err(e),
        };
        let added: LatencyGuard = LatencyGuard {
            latency_tracker_name: tracker.name().to_owned(),
            threshold_ms,
            ttl_ms: tracker.sample_ttl_ms(),
            max_samples: tracker.max_samples(),
            min_sample_threshold: tracker.min_samples(),
        };
        let ghost before = self.guards@;
        let mut guards: Vec<LatencyGuard> = self.guards;
        guards.push(added);
        assert(guards@.drop_last() =~= before);
        assert forall|i: int| 0 <= i < guards@.len() implies utf8::encode_utf8(
            (#[trigger] guards@[i]).latency_tracker_name@,
        ).len() <= u32::MAX by {
            if i < before.len() {
                assert(guards@[i] == before[i]);
            }
        }
        Ok(
            RequestBuilder {
                client: self.client,
                resources: self.resources,
                guards,
                metrics_label: self.metrics_label,
            },
        )
    }

    /// The client that the request is for.
    pub fn client(&self) -> (client: &'a Client)
        ensures
            client@ == self@.setup,
    {
        self.client
    }

    /// What to do about the request: grant it if it asks for nothing, or ask
    /// servers. The quota was checked entry by entry.
    pub fn admission(&self) -> (admission: Result<RequestAdmission, Error>)
        ensures
            match admission {
                Ok(RequestAdmission::Granted(response)) => {
                    &&& self@.resources.len() == 0 && self@.guards.len() == 0
                    &&& response@ == ResponseView::local_grant()
                },
                Ok(RequestAdmission::Ask { dedup_ttl_ms }) => {
                    &&& self@.resources.len() > 0 || self@.guards.len() > 0
                    &&& dedup_ttl_ms as nat == self@.setup.request_policy.horizon()
                },
                Err(_) => false,
            },
    {
        proof {
            use_type_invariant(self);
            client::lemma_none_oversized(
                self@.resources,
                self@.setup.limits.rate_window_size_ms_max,
            );
        }
        match self.client.inner.admission(self.resources.as_slice(), self.guards.as_slice()) {
            Ok(Admission::Granted(_)) => Ok(RequestAdmission::Granted(Response::local())),
            Ok(Admission::Ask { dedup_ttl_ms }) => Ok(RequestAdmission::Ask { dedup_ttl_ms }),
            Err(e) => Err(Error::from(e)),
        }
    }

    /// The packet that asks servers, under a fresh request identifier.
    ///
    /// # Errors
    ///
    /// Returns [`Error`] when no packet can hold the request.
    #[verifier::spinoff_prover]
    pub fn prepare(&self, time_stamp: u64) -> (prepared: Result<OutgoingPacket, Error>)
        ensures
            match prepared {
                Ok(outgoing) => {
                    &&& request_wire::rate_request_error(
                        self@.setup.auth_method,
                        self@.resources,
                        self@.guards,
                        self@.label_bytes(),
                    ) is None
                    &&& crypto::is_random_uuid(outgoing.request_id@)
                    &&& request_wire::carries(
                        buffer::buffer_bytes(outgoing.packet),
                        self@.setup,
                        outgoing.request_id@,
                        time_stamp,
                        self@.pdu(),
                    )
                },
                Err(e) => request_wire::rate_request_error(
                    self@.setup.auth_method,
                    self@.resources,
                    self@.guards,
                    self@.label_bytes(),
                ) is Some && e == Error::Protocol,
            },
    {
        proof {
            use_type_invariant(self);
        }
        let label: Option<&str> = match &self.metrics_label {
            Some(text) => Some(text.as_str()),
            None => None,
        };
        assert(request_wire::label_text(label) == self@.label_bytes());
        proof {
            request_wire::lemma_oversized_requests_break_the_protocol(
                self@.setup.auth_method,
                self@.resources,
                self@.guards,
                self@.label_bytes(),
            );
        }
        match self.client.inner.build_rate_request(
            self.resources.as_slice(),
            self.guards.as_slice(),
            label,
            time_stamp,
        ) {
            Ok(outgoing) => {
                assert(request_wire::carries(
                    buffer::buffer_bytes(outgoing.packet),
                    self@.setup,
                    outgoing.request_id@,
                    time_stamp,
                    self@.pdu(),
                ));
                Ok(outgoing)
            },
            Err(e) => Err(Error::from(e)),
        }
    }
}

} // verus!
