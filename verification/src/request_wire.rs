//! Requests and reports on the wire.

use bytes::BytesMut;

use vstd::prelude::*;
use vstd::slice::slice_subrange;
use vstd::utf8;

use crate::buffer;
use crate::client;
use crate::client::{CoreClient, CoreClientView};
use crate::config::AuthMethod;
use crate::crypto;
use crate::error::{CoreError, CoreErrorView};
use crate::protocol;
use crate::protocol::{
    derive_bucket_id, derive_latency_tracker_id, encrypt_pdu_with_nonce, GuardBlock, LatencyGuard,
    ResourceBlock, ResourceRequest, ServiceLatencyBlock, ServiceLatencyReport, TenantHeader,
};
use crate::response_wire;
use crate::wire;

verus! {

/// Bytes of a PDU's header.
pub const PDU_HEADER_LEN: usize = 8;

/// The most bytes that a packet may have.
pub const MAX_PACKET_SIZE: usize = 1200;

/// The most bytes that a TLV or a PDU may have: its size field is a `u16`.
pub const MAX_SIZED: usize = 65_535;

/// That many zero bytes.
pub open spec fn zeros(n: nat) -> Seq<u8> {
    Seq::new(n, |i: int| 0u8)
}

/// The identifier of the tracker that a guard is about.
pub open spec fn guarded_tracker_id(guard: LatencyGuard) -> Seq<u8> {
    protocol::latency_tracker_id(
        utf8::encode_utf8(guard.latency_tracker_name@),
        guard.ttl_ms,
        guard.max_samples,
        guard.min_sample_threshold,
    )
}

/// The identifier of the rate counter that a consumption is about.
pub open spec fn consumed_bucket_id(resource: ResourceRequest) -> Seq<u8> {
    protocol::bucket_id(
        utf8::encode_utf8(resource.bucket_name@),
        resource.window_size_ms,
        resource.rate_limit,
    )
}

/// The identifier of the tracker that an observation is for.
pub open spec fn reported_tracker_id(report: ServiceLatencyReport) -> Seq<u8> {
    protocol::latency_tracker_id(
        utf8::encode_utf8(report.latency_tracker_name@),
        report.ttl_ms,
        report.max_samples,
        report.min_sample_threshold,
    )
}

/// One guard of a request on the wire.
pub open spec fn guard_bytes(guard: LatencyGuard) -> Seq<u8> {
    guarded_tracker_id(guard) + wire::le_bytes(guard.ttl_ms as nat, 4)
        + wire::le_bytes(guard.max_samples as nat, 4) + wire::le_bytes(guard.min_sample_threshold as nat, 4) + wire::le_bytes(
        guard.threshold_ms as nat,
        4,
    ) + wire::le_bytes(0, 4)
}

/// The guards of a request on the wire.
pub open spec fn all_guard_bytes(guards: Seq<LatencyGuard>) -> Seq<u8>
    decreases guards.len(),
{
    if guards.len() == 0 {
        Seq::<u8>::empty()
    } else {
        all_guard_bytes(guards.drop_last()) + guard_bytes(guards.last())
    }
}

/// One resource of a request on the wire.
pub open spec fn resource_bytes(resource: ResourceRequest) -> Seq<u8> {
    consumed_bucket_id(resource) + wire::le_bytes(resource.window_size_ms as nat, 4) + wire::le_bytes(
        resource.rate_limit as nat,
        4,
    ) + wire::le_bytes(resource.tokens_requested as nat, 2) + wire::le_bytes(0, 2)
}

/// The resources of a request on the wire.
pub open spec fn all_resource_bytes(resources: Seq<ResourceRequest>) -> Seq<u8>
    decreases resources.len(),
{
    if resources.len() == 0 {
        Seq::<u8>::empty()
    } else {
        all_resource_bytes(resources.drop_last()) + resource_bytes(resources.last())
    }
}

/// The zeros that fill a label of `len` bytes, with its length field, up to a
/// multiple of four.
pub open spec fn label_padding(len: nat) -> nat {
    ((4 - (2 + len) % 4) % 4) as nat
}

/// The size of the TLV of a label of `len` bytes.
pub open spec fn label_tlv_size(len: nat) -> nat {
    4 + 2 + len + label_padding(len)
}

/// The TLV of a label: type, size, length of the label, label, padding.
pub open spec fn label_tlv(label: Seq<u8>) -> Seq<u8> {
    wire::le_bytes(protocol::TLV_METRICS_LABEL as nat, 2) + wire::le_bytes(
        label_tlv_size(label.len()),
        2,
    ) + wire::le_bytes(label.len(), 2) + label + zeros(label_padding(label.len()))
}

/// The error of a label that no TLV can hold.
pub open spec fn label_error(label: Seq<u8>) -> Option<CoreErrorView> {
    if label.len() > MAX_SIZED {
        Some(CoreErrorView::Protocol("Metrics label too long"@))
    } else if label_tlv_size(label.len()) > MAX_SIZED {
        Some(CoreErrorView::Protocol("Metrics label TLV too large"@))
    } else {
        None
    }
}

/// A TLV holds labels of at most 65526 bytes.
pub proof fn lemma_longest_label(label: Seq<u8>)
    ensures
        label_error(label) is None <==> label.len() <= 65_526,
{
    let n = label.len();
    let padding = label_padding(n);
    assert(padding <= 3);
    if n == 65_526 {
        assert(padding == 0);
    } else if n >= 65_527 {
        assert(label_tlv_size(n) >= 65_533 && label_tlv_size(n) % 4 == 0);
    }
}

/// The bytes of a label, if there is one.
pub open spec fn label_text(label: Option<&str>) -> Option<Seq<u8>> {
    match label {
        Some(text) => Some(utf8::encode_utf8(text@)),
        None => None,
    }
}

/// The body of a resource request: two counts, the guards, the resources, the
/// label.
pub open spec fn rate_request_body(
    resources: Seq<ResourceRequest>,
    guards: Seq<LatencyGuard>,
    label: Option<Seq<u8>>,
) -> Seq<u8> {
    wire::le_bytes(guards.len() % 65_536, 2) + wire::le_bytes(resources.len() % 65_536, 2)
        + all_guard_bytes(guards) + all_resource_bytes(resources) + match label {
        Some(text) => label_tlv(text),
        None => Seq::<u8>::empty(),
    }
}

/// Whether every name has a length that identifiers can be derived from.
pub open spec fn names_fit(resources: Seq<ResourceRequest>, guards: Seq<LatencyGuard>) -> bool {
    &&& forall|i: int|
        0 <= i < resources.len() ==> utf8::encode_utf8(
            (#[trigger] resources[i]).bucket_name@,
        ).len() <= u32::MAX
    &&& forall|i: int|
        0 <= i < guards.len() ==> utf8::encode_utf8(
            (#[trigger] guards[i]).latency_tracker_name@,
        ).len() <= u32::MAX
}

/// Whether every name has a length that identifiers can be derived from.
pub open spec fn report_names_fit(reports: Seq<ServiceLatencyReport>) -> bool {
    forall|i: int|
        0 <= i < reports.len() ==> utf8::encode_utf8(
            (#[trigger] reports[i]).latency_tracker_name@,
        ).len() <= u32::MAX
}

/// One observation on the wire.
pub open spec fn report_bytes(report: ServiceLatencyReport) -> Seq<u8> {
    reported_tracker_id(report) + wire::le_bytes(report.ttl_ms as nat, 4)
        + wire::le_bytes(report.max_samples as nat, 4) + wire::le_bytes(report.min_sample_threshold as nat, 4) + wire::le_bytes(
        report.observed_latency as nat,
        4,
    )
}

/// Observations on the wire.
pub open spec fn all_report_bytes(reports: Seq<ServiceLatencyReport>) -> Seq<u8>
    decreases reports.len(),
{
    if reports.len() == 0 {
        Seq::<u8>::empty()
    } else {
        all_report_bytes(reports.drop_last()) + report_bytes(reports.last())
    }
}

/// The body of a latency report: a count, two zeros, the observations.
pub open spec fn latency_report_body(reports: Seq<ServiceLatencyReport>) -> Seq<u8> {
    wire::le_bytes(reports.len() % 65_536, 2) + zeros(2) + all_report_bytes(reports)
}

/// A PDU: type, size with the header, four bytes of its own, body.
pub open spec fn pdu_bytes(pdu_type: u16, word: nat, body: Seq<u8>) -> Seq<u8> {
    wire::le_bytes(pdu_type as nat, 2) + wire::le_bytes((PDU_HEADER_LEN + body.len()) as nat, 2)
        + wire::le_bytes(word, 4) + body
}

/// The error of a body that no PDU can hold.
pub open spec fn pdu_error(body_len: nat) -> Option<CoreErrorView> {
    if PDU_HEADER_LEN + body_len > MAX_SIZED {
        Some(CoreErrorView::Protocol("PDU too large"@))
    } else {
        None
    }
}

impl CoreClient {
    /// Appends the TLV of a metrics label.
    pub fn append_metrics_label_tlv(pdu_body: &mut BytesMut, label: &str) -> (appended: Result<
        (),
        CoreError,
    >)
        requires
            buffer::may_hold(buffer::buffer_bytes(*old(pdu_body)).len() + MAX_SIZED as nat),
        ensures
            match appended {
                Ok(_) => {
                    &&& label_error(utf8::encode_utf8(label@)) is None
                    &&& buffer::buffer_bytes(*final(pdu_body)) == buffer::buffer_bytes(
                        *old(pdu_body),
                    ) + label_tlv(utf8::encode_utf8(label@))
                    &&& buffer::buffer_bytes(*final(pdu_body)).len() == buffer::buffer_bytes(
                        *old(pdu_body),
                    ).len() + label_tlv_size(utf8::encode_utf8(label@).len())
                },
                Err(e) => {
                    &&& label_error(utf8::encode_utf8(label@)) == Some(e@)
                    &&& *final(pdu_body) == *old(pdu_body)
                },
            },
    {
        let label_bytes: &[u8] = label.as_bytes();
        if label_bytes.len() > MAX_SIZED {
            return Err(CoreError::Protocol("Metrics label too long".to_owned()));
        }
        let body_len: usize = 2 + label_bytes.len();
        let padding: usize = (4 - (body_len % 4)) % 4;
        let tlv_size: usize = 4 + body_len + padding;
        if tlv_size > MAX_SIZED {
            return Err(CoreError::Protocol("Metrics label TLV too large".to_owned()));
        }
        let ghost before = buffer::buffer_bytes(*pdu_body);
        let pad: [u8; 4] = [0, 0, 0, 0];
        pdu_body.extend_from_slice(&wire::u16_le(protocol::TLV_METRICS_LABEL));
        pdu_body.extend_from_slice(&wire::u16_le(tlv_size as u16));
        pdu_body.extend_from_slice(&wire::u16_le(label_bytes.len() as u16));
        pdu_body.extend_from_slice(label_bytes);
        if padding > 0 {
            pdu_body.extend_from_slice(slice_subrange(&pad, 0, padding));
        }
        assert(buffer::buffer_bytes(*pdu_body) =~= before + label_tlv(label_bytes@)) by {
            assert(pad@.subrange(0, padding as int) =~= zeros(padding as nat));
        }
        Ok(())
    }

    /// The body of a resource request.
    pub fn build_rate_request_body(
        resources: &[ResourceRequest],
        guards: &[LatencyGuard],
        metrics_label: Option<&str>,
    ) -> (built: Result<BytesMut, CoreError>)
        requires
            names_fit(resources@, guards@),
            buffer::may_hold(4 + guards@.len() * 36 + resources@.len() * 28 + MAX_SIZED as nat),
        ensures
            match built {
                Ok(body) => {
                    &&& label_text(metrics_label) matches Some(l) ==> label_error(l) is None
                    &&& buffer::buffer_bytes(body) == rate_request_body(
                        resources@,
                        guards@,
                        label_text(metrics_label),
                    )
                    &&& buffer::buffer_bytes(body).len() == rate_request_len(
                        resources@.len(),
                        guards@.len(),
                        label_text(metrics_label),
                    )
                },
                Err(e) => label_text(metrics_label) matches Some(l) && label_error(l) == Some(e@),
            },
    {
        let mut body: BytesMut = BytesMut::with_capacity(
            4 + guards.len() * protocol::GUARD_BLOCK_WIRE_LEN + resources.len()
                * protocol::RESOURCE_BLOCK_WIRE_LEN,
        );
        body.extend_from_slice(&wire::u16_le((guards.len() % 65_536) as u16));
        body.extend_from_slice(&wire::u16_le((resources.len() % 65_536) as u16));
        let ghost counts = buffer::buffer_bytes(body);
        let mut i: usize = 0;
        assert(all_guard_bytes(guards@.take(0)) =~= Seq::<u8>::empty());
        while i < guards.len()
            invariant
                i <= guards@.len(),
                names_fit(resources@, guards@),
                counts.len() == 4,
                buffer::may_hold(4 + guards@.len() * 36 + resources@.len() * 28 + MAX_SIZED as nat),
                buffer::buffer_bytes(body) =~= counts + all_guard_bytes(guards@.take(i as int)),
                all_guard_bytes(guards@.take(i as int)).len() == i * 36,
            decreases guards@.len() - i,
        {
            let guard: &LatencyGuard = &guards[i];
            let block: GuardBlock = GuardBlock {
                latency_tracker_id: derive_latency_tracker_id(
                    guard.latency_tracker_name.as_str(),
                    guard.ttl_ms,
                    guard.max_samples,
                    guard.min_sample_threshold,
                ),
                ttl_ms: guard.ttl_ms,
                max_samples: guard.max_samples,
                min_sample_threshold: guard.min_sample_threshold,
                latency_threshold: guard.threshold_ms,
                current_latency: 0,
            };
            let bytes: Vec<u8> = block.to_bytes();
            body.extend_from_slice(bytes.as_slice());
            proof {
                assert(guards@.take(i + 1).drop_last() =~= guards@.take(i as int));
                assert(bytes@ =~= guard_bytes(*guard));
            }
            i = i + 1;
        }
        assert(guards@.take(i as int) =~= guards@);
        let ghost head = buffer::buffer_bytes(body);
        i = 0;
        assert(all_resource_bytes(resources@.take(0)) =~= Seq::<u8>::empty());
        while i < resources.len()
            invariant
                i <= resources@.len(),
                names_fit(resources@, guards@),
                head.len() == 4 + guards@.len() * 36,
                buffer::may_hold(4 + guards@.len() * 36 + resources@.len() * 28 + MAX_SIZED as nat),
                buffer::buffer_bytes(body) =~= head + all_resource_bytes(resources@.take(i as int)),
                all_resource_bytes(resources@.take(i as int)).len() == i * 28,
            decreases resources@.len() - i,
        {
            let resource: &ResourceRequest = &resources[i];
            let block: ResourceBlock = ResourceBlock {
                bucket_id: derive_bucket_id(
                    resource.bucket_name.as_str(),
                    resource.window_size_ms,
                    resource.rate_limit,
                ),
                window_size_ms: resource.window_size_ms,
                rate_limit: resource.rate_limit,
                tokens_requested: resource.tokens_requested,
                padding: 0,
            };
            let bytes: Vec<u8> = block.to_bytes();
            body.extend_from_slice(bytes.as_slice());
            proof {
                assert(resources@.take(i + 1).drop_last() =~= resources@.take(i as int));
                assert(bytes@ =~= resource_bytes(*resource));
            }
            i = i + 1;
        }
        assert(resources@.take(i as int) =~= resources@);
        match metrics_label {
            Some(label) => match CoreClient::append_metrics_label_tlv(&mut body, label) {
                Ok(_) => {},
                Err(e) => return Err(e),
            },
            None => {},
        }
        assert(buffer::buffer_bytes(body) =~= rate_request_body(
            resources@,
            guards@,
            label_text(metrics_label),
        ));
        Ok(body)
    }

    /// The body of a latency report.
    pub fn build_latency_report_body(reports: &[ServiceLatencyReport]) -> (body: BytesMut)
        requires
            report_names_fit(reports@),
            buffer::may_hold(4 + reports@.len() * 32),
        ensures
            buffer::buffer_bytes(body) == latency_report_body(reports@),
            buffer::buffer_bytes(body).len() == 4 + reports@.len() * 32,
    {
        let mut body: BytesMut = BytesMut::with_capacity(
            4 + reports.len() * protocol::SERVICE_LATENCY_BLOCK_WIRE_LEN,
        );
        body.extend_from_slice(&wire::u16_le((reports.len() % 65_536) as u16));
        body.extend_from_slice(&[0u8, 0]);
        let ghost head = buffer::buffer_bytes(body);
        assert(head =~= wire::le_bytes(reports@.len() % 65_536, 2) + zeros(2));
        let mut i: usize = 0;
        assert(all_report_bytes(reports@.take(0)) =~= Seq::<u8>::empty());
        while i < reports.len()
            invariant
                i <= reports@.len(),
                report_names_fit(reports@),
                head.len() == 4,
                buffer::may_hold(4 + reports@.len() * 32),
                buffer::buffer_bytes(body) =~= head + all_report_bytes(reports@.take(i as int)),
                all_report_bytes(reports@.take(i as int)).len() == i * 32,
            decreases reports@.len() - i,
        {
            let report: &ServiceLatencyReport = &reports[i];
            let block: ServiceLatencyBlock = ServiceLatencyBlock {
                latency_tracker_id: derive_latency_tracker_id(
                    report.latency_tracker_name.as_str(),
                    report.ttl_ms,
                    report.max_samples,
                    report.min_sample_threshold,
                ),
                ttl_ms: report.ttl_ms,
                max_samples: report.max_samples,
                min_sample_threshold: report.min_sample_threshold,
                observed_latency: report.observed_latency,
            };
            let bytes: Vec<u8> = block.to_bytes();
            body.extend_from_slice(bytes.as_slice());
            proof {
                assert(reports@.take(i + 1).drop_last() =~= reports@.take(i as int));
                assert(bytes@ =~= report_bytes(*report));
            }
            i = i + 1;
        }
        assert(reports@.take(i as int) =~= reports@);
        body
    }

    /// A PDU with four zero bytes behind its size.
    pub fn build_pdu(pdu_type: u16, body: &[u8]) -> (built: Result<BytesMut, CoreError>)
        ensures
            match built {
                Ok(pdu) => pdu_error(body@.len()) is None && buffer::buffer_bytes(pdu)
                    == pdu_bytes(pdu_type, 0, body@) && buffer::buffer_bytes(pdu).len()
                    == PDU_HEADER_LEN + body@.len(),
                Err(e) => pdu_error(body@.len()) == Some(e@),
            },
    {
        CoreClient::build_pdu_with_word(pdu_type, 0, body)
    }

    /// A resource-request PDU, with the deduplication lifetime behind its size.
    pub fn build_rate_request_pdu(dedup_ttl_ms: u32, body: &[u8]) -> (built: Result<
        BytesMut,
        CoreError,
    >)
        ensures
            match built {
                Ok(pdu) => pdu_error(body@.len()) is None && buffer::buffer_bytes(pdu)
                    == pdu_bytes(protocol::PDU_RATE_REQUEST, dedup_ttl_ms as nat, body@)
                    && buffer::buffer_bytes(pdu).len() == PDU_HEADER_LEN + body@.len(),
                Err(e) => pdu_error(body@.len()) == Some(e@),
            },
    {
        CoreClient::build_pdu_with_word(protocol::PDU_RATE_REQUEST, dedup_ttl_ms, body)
    }

    /// A PDU with the given number behind its size.
    fn build_pdu_with_word(pdu_type: u16, word: u32, body: &[u8]) -> (built: Result<
        BytesMut,
        CoreError,
    >)
        ensures
            match built {
                Ok(pdu) => pdu_error(body@.len()) is None && buffer::buffer_bytes(pdu)
                    == pdu_bytes(pdu_type, word as nat, body@) && buffer::buffer_bytes(pdu).len()
                    == PDU_HEADER_LEN + body@.len(),
                Err(e) => pdu_error(body@.len()) == Some(e@),
            },
    {
        if body.len() > MAX_SIZED - PDU_HEADER_LEN {
            return Err(CoreError::Protocol("PDU too large".to_owned()));
        }
        let pdu_size: usize = PDU_HEADER_LEN + body.len();
        let mut pdu: BytesMut = BytesMut::with_capacity(pdu_size);
        pdu.extend_from_slice(&wire::u16_le(pdu_type));
        pdu.extend_from_slice(&wire::u16_le(pdu_size as u16));
        pdu.extend_from_slice(&wire::u32_le(word));
        pdu.extend_from_slice(body);
        assert(buffer::buffer_bytes(pdu) =~= pdu_bytes(pdu_type, word as nat, body@));
        Ok(pdu)
    }
}

/// The header of a packet from this client.
pub open spec fn request_header(setup: CoreClientView, request_id: Seq<u8>, time_stamp: u64) -> Seq<
    u8,
> {
    wire::le_bytes(protocol::TLV_TENANT as nat, 2) + wire::le_bytes(
        protocol::TENANT_TLV_LEN as nat,
        2,
    ) + wire::le_bytes(setup.key_id as nat, 8) + request_id + wire::le_bytes(time_stamp as nat, 8)
        + seq![
        if setup.steering_feedback {
            1u8
        } else {
            0u8
        },
        0u8,
    ] + seq![0u8, 0u8]
}

/// Bytes of an authentication TLV.
pub open spec fn auth_size(method: AuthMethod) -> nat {
    match method {
        AuthMethod::Unauthenticated => 4,
        AuthMethod::Cookie(_) => 36,
        AuthMethod::AesGcm(_) => 32,
    }
}

/// Type and size of an authentication TLV.
pub open spec fn auth_head(method: AuthMethod) -> Seq<u8> {
    wire::le_bytes(response_wire::auth_type(method) as nat, 2) + wire::le_bytes(
        auth_size(method),
        2,
    )
}

/// What follows `front` in a packet: the authentication TLV and the PDU. Under
/// AES-256-GCM the TLV holds nonce and tag, the PDU is encrypted, and all that
/// comes before the tag is associated data.
pub open spec fn auth_tail(front: Seq<u8>, method: AuthMethod, nonce: Seq<u8>, pdu: Seq<u8>) -> Seq<
    u8,
> {
    match method {
        AuthMethod::Unauthenticated => auth_head(method) + pdu,
        AuthMethod::Cookie(secret) => auth_head(method) + secret@ + pdu,
        AuthMethod::AesGcm(secret) => {
            let sealed = crypto::aes256_gcm_sealed(
                secret@,
                nonce,
                front + auth_head(method) + nonce,
                pdu,
            );
            auth_head(method) + nonce + sealed.skip(pdu.len() as int) + sealed.take(
                pdu.len() as int,
            )
        },
    }
}

/// What reading the authentication TLV at `pos` gives a client of this method.
pub open spec fn read_back(packet: Seq<u8>, pos: int, method: AuthMethod) -> Result<
    Seq<u8>,
    CoreErrorView,
> {
    response_wire::auth_parsed(
        packet,
        pos,
        method,
        response_wire::secret_bytes(client::cookie_of(method)),
        response_wire::secret_bytes(client::aes_key_of(method)),
    )
}

/// A whole packet.
pub open spec fn packet_bytes(
    setup: CoreClientView,
    request_id: Seq<u8>,
    time_stamp: u64,
    nonce: Seq<u8>,
    pdu: Seq<u8>,
) -> Seq<u8> {
    let front = request_header(setup, request_id, time_stamp);
    front + auth_tail(front, setup.auth_method, nonce, pdu)
}

/// Whether `packet` is the packet of a PDU under that nonce.
pub open spec fn is_packet(
    packet: Seq<u8>,
    setup: CoreClientView,
    request_id: Seq<u8>,
    time_stamp: u64,
    nonce: Seq<u8>,
    pdu: Seq<u8>,
) -> bool {
    nonce.len() == 12 && packet == packet_bytes(setup, request_id, time_stamp, nonce, pdu)
}

/// Whether `packet` carries a PDU: it is the packet of the PDU under some
/// nonce, it is within the bound of packets, and reading it back gives the PDU.
pub open spec fn carries(
    packet: Seq<u8>,
    setup: CoreClientView,
    request_id: Seq<u8>,
    time_stamp: u64,
    pdu: Seq<u8>,
) -> bool {
    &&& exists|nonce: Seq<u8>|
        #[trigger] is_packet(packet, setup, request_id, time_stamp, nonce, pdu)
    &&& packet.len() <= MAX_PACKET_SIZE
    &&& read_back(packet, protocol::TENANT_TLV_LEN as int, setup.auth_method) == Ok::<
        _,
        CoreErrorView,
    >(pdu)
}

/// The error of a PDU that no packet can hold.
pub open spec fn packet_error(method: AuthMethod, pdu_len: nat) -> Option<CoreErrorView> {
    if protocol::TENANT_TLV_LEN + auth_size(method) + pdu_len > MAX_PACKET_SIZE {
        Some(CoreErrorView::Protocol("Packet too large for MTU target"@))
    } else {
        None
    }
}

/// The error of a body that no packet can hold.
pub open spec fn body_error(method: AuthMethod, body_len: nat) -> Option<CoreErrorView> {
    match pdu_error(body_len) {
        Some(e) => Some(e),
        None => packet_error(method, (PDU_HEADER_LEN + body_len) as nat),
    }
}

/// The bytes of a resource request's body.
pub open spec fn rate_request_len(resources: nat, guards: nat, label: Option<Seq<u8>>) -> nat {
    4 + guards * 36 + resources * 28 + match label {
        Some(text) => label_tlv_size(text.len()),
        None => 0,
    }
}

/// The bytes of a latency report's body.
pub open spec fn latency_report_len(reports: nat) -> nat {
    4 + reports * 32
}

/// The error of a resource request that no packet can hold.
pub open spec fn rate_request_error(
    method: AuthMethod,
    resources: Seq<ResourceRequest>,
    guards: Seq<LatencyGuard>,
    label: Option<Seq<u8>>,
) -> Option<CoreErrorView> {
    let too_long = match label {
        Some(l) => label_error(l),
        None => None,
    };
    match too_long {
        Some(e) => Some(e),
        None => body_error(method, rate_request_len(resources.len(), guards.len(), label)),
    }
}

/// A request that no packet can hold breaks the protocol, and nothing else.
pub proof fn lemma_oversized_requests_break_the_protocol(
    method: AuthMethod,
    resources: Seq<ResourceRequest>,
    guards: Seq<LatencyGuard>,
    label: Option<Seq<u8>>,
)
    ensures
        rate_request_error(method, resources, guards, label) matches Some(e) ==> e is Protocol,
{
}

/// The PDU of a resource request.
pub open spec fn rate_request_pdu(
    dedup_ttl_ms: nat,
    resources: Seq<ResourceRequest>,
    guards: Seq<LatencyGuard>,
    label: Option<Seq<u8>>,
) -> Seq<u8> {
    pdu_bytes(
        protocol::PDU_RATE_REQUEST,
        dedup_ttl_ms,
        rate_request_body(resources, guards, label),
    )
}

/// The PDU of a latency report.
pub open spec fn latency_report_pdu(reports: Seq<ServiceLatencyReport>) -> Seq<u8> {
    pdu_bytes(protocol::PDU_LATENCY_REPORT, 0, latency_report_body(reports))
}

/// A request with fewer than 65536 guards and as many resources states both
/// numbers exactly.
pub proof fn lemma_counts_are_exact(
    resources: Seq<ResourceRequest>,
    guards: Seq<LatencyGuard>,
    label: Option<Seq<u8>>,
)
    requires
        resources.len() < 65_536,
        guards.len() < 65_536,
    ensures
        wire::le_field(rate_request_body(resources, guards, label), 0, 2) == guards.len(),
        wire::le_field(rate_request_body(resources, guards, label), 2, 2) == resources.len(),
{
    let body = rate_request_body(resources, guards, label);
    let (g, r) = (guards.len(), resources.len());
    wire::lemma_byte_ranges();
    wire::lemma_le_bytes_len(g, 2);
    wire::lemma_le_bytes_len(r, 2);
    assert(g % 65_536 == g && r % 65_536 == r);
    assert(body.subrange(0, 2) =~= wire::le_bytes(g, 2));
    assert(body.subrange(2, 4) =~= wire::le_bytes(r, 2));
    protocol::lemma_field(body, 0, g, 2);
    protocol::lemma_field(body, 2, r, 2);
}

/// A label changes nothing about guards and resources: it only adds its TLV at
/// the end of the body.
pub proof fn lemma_label_only_adds_its_tlv(
    resources: Seq<ResourceRequest>,
    guards: Seq<LatencyGuard>,
    label: Seq<u8>,
)
    ensures
        rate_request_body(resources, guards, Some(label)) == rate_request_body(
            resources,
            guards,
            None,
        ) + label_tlv(label),
{
    assert(rate_request_body(resources, guards, Some(label)) =~= rate_request_body(
        resources,
        guards,
        None,
    ) + label_tlv(label));
}

/// A packet from this client carries its request identifier: a look at the
/// header finds it, so that the response can be told apart.
pub proof fn lemma_packet_carries_request_id(
    setup: CoreClientView,
    request_id: Seq<u8>,
    time_stamp: u64,
    nonce: Seq<u8>,
    pdu: Seq<u8>,
)
    requires
        request_id.len() == 16,
    ensures
        response_wire::peeked_request_id(packet_bytes(setup, request_id, time_stamp, nonce, pdu))
            == Some(request_id),
        response_wire::peeked_server_id(packet_bytes(setup, request_id, time_stamp, nonce, pdu))
            == Some(setup.key_id),
{
    let bytes = packet_bytes(setup, request_id, time_stamp, nonce, pdu);
    wire::lemma_byte_ranges();
    wire::lemma_le_bytes_len(protocol::TLV_TENANT as nat, 2);
    wire::lemma_le_bytes_len(protocol::TENANT_TLV_LEN as nat, 2);
    wire::lemma_le_bytes_len(setup.key_id as nat, 8);
    wire::lemma_le_bytes_len(time_stamp as nat, 8);
    assert(bytes.subrange(0, 2) =~= wire::le_bytes(protocol::TLV_TENANT as nat, 2));
    assert(bytes.subrange(2, 4) =~= wire::le_bytes(protocol::TENANT_TLV_LEN as nat, 2));
    assert(bytes.subrange(4, 12) =~= wire::le_bytes(setup.key_id as nat, 8));
    assert(bytes.subrange(12, 28) =~= request_id);
    protocol::lemma_field(bytes, 0, protocol::TLV_TENANT as nat, 2);
    protocol::lemma_field(bytes, 2, protocol::TENANT_TLV_LEN as nat, 2);
    protocol::lemma_field(bytes, 4, setup.key_id as nat, 8);
}

/// Where the fields of one guard stand.
proof fn lemma_guard_layout(guard: LatencyGuard)
    ensures
        ({
            let bytes = guard_bytes(guard);
            &&& bytes.len() == 36
            &&& bytes.subrange(0, 16) == guarded_tracker_id(guard)
            &&& wire::le_field(bytes, 16, 4) == guard.ttl_ms
            &&& wire::le_field(bytes, 20, 4) == guard.max_samples
            &&& wire::le_field(bytes, 24, 4) == guard.min_sample_threshold
            &&& wire::le_field(bytes, 28, 4) == guard.threshold_ms
            &&& wire::le_field(bytes, 32, 4) == 0
        }),
{
    let bytes = guard_bytes(guard);
    wire::lemma_byte_ranges();
    wire::lemma_le_bytes_len(guard.ttl_ms as nat, 4);
    wire::lemma_le_bytes_len(guard.max_samples as nat, 4);
    wire::lemma_le_bytes_len(guard.min_sample_threshold as nat, 4);
    wire::lemma_le_bytes_len(guard.threshold_ms as nat, 4);
    wire::lemma_le_bytes_len(0, 4);
    assert(bytes.subrange(0, 16) =~= guarded_tracker_id(guard));
    assert(bytes.subrange(16, 20) =~= wire::le_bytes(guard.ttl_ms as nat, 4));
    assert(bytes.subrange(20, 24) =~= wire::le_bytes(guard.max_samples as nat, 4));
    assert(bytes.subrange(24, 28) =~= wire::le_bytes(guard.min_sample_threshold as nat, 4));
    assert(bytes.subrange(28, 32) =~= wire::le_bytes(guard.threshold_ms as nat, 4));
    assert(bytes.subrange(32, 36) =~= wire::le_bytes(0, 4));
    protocol::lemma_field(bytes, 16, guard.ttl_ms as nat, 4);
    protocol::lemma_field(bytes, 20, guard.max_samples as nat, 4);
    protocol::lemma_field(bytes, 24, guard.min_sample_threshold as nat, 4);
    protocol::lemma_field(bytes, 28, guard.threshold_ms as nat, 4);
    protocol::lemma_field(bytes, 32, 0, 4);
}

/// Where the fields of one resource stand.
proof fn lemma_resource_layout(resource: ResourceRequest)
    ensures
        ({
            let bytes = resource_bytes(resource);
            &&& bytes.len() == 28
            &&& bytes.subrange(0, 16) == consumed_bucket_id(resource)
            &&& wire::le_field(bytes, 16, 4) == resource.window_size_ms
            &&& wire::le_field(bytes, 20, 4) == resource.rate_limit
            &&& wire::le_field(bytes, 24, 2) == resource.tokens_requested
            &&& wire::le_field(bytes, 26, 2) == 0
        }),
{
    let bytes = resource_bytes(resource);
    wire::lemma_byte_ranges();
    wire::lemma_le_bytes_len(resource.window_size_ms as nat, 4);
    wire::lemma_le_bytes_len(resource.rate_limit as nat, 4);
    wire::lemma_le_bytes_len(resource.tokens_requested as nat, 2);
    wire::lemma_le_bytes_len(0, 2);
    assert(bytes.subrange(0, 16) =~= consumed_bucket_id(resource));
    assert(bytes.subrange(16, 20) =~= wire::le_bytes(resource.window_size_ms as nat, 4));
    assert(bytes.subrange(20, 24) =~= wire::le_bytes(resource.rate_limit as nat, 4));
    assert(bytes.subrange(24, 26) =~= wire::le_bytes(resource.tokens_requested as nat, 2));
    assert(bytes.subrange(26, 28) =~= wire::le_bytes(0, 2));
    protocol::lemma_field(bytes, 16, resource.window_size_ms as nat, 4);
    protocol::lemma_field(bytes, 20, resource.rate_limit as nat, 4);
    protocol::lemma_field(bytes, 24, resource.tokens_requested as nat, 2);
    protocol::lemma_field(bytes, 26, 0, 2);
}

/// Where the fields of one observation stand.
proof fn lemma_report_layout(report: ServiceLatencyReport)
    ensures
        ({
            let bytes = report_bytes(report);
            &&& bytes.len() == 32
            &&& bytes.subrange(0, 16) == reported_tracker_id(report)
            &&& wire::le_field(bytes, 16, 4) == report.ttl_ms
            &&& wire::le_field(bytes, 20, 4) == report.max_samples
            &&& wire::le_field(bytes, 24, 4) == report.min_sample_threshold
            &&& wire::le_field(bytes, 28, 4) == report.observed_latency
        }),
{
    let bytes = report_bytes(report);
    wire::lemma_byte_ranges();
    wire::lemma_le_bytes_len(report.ttl_ms as nat, 4);
    wire::lemma_le_bytes_len(report.max_samples as nat, 4);
    wire::lemma_le_bytes_len(report.min_sample_threshold as nat, 4);
    wire::lemma_le_bytes_len(report.observed_latency as nat, 4);
    assert(bytes.subrange(0, 16) =~= reported_tracker_id(report));
    assert(bytes.subrange(16, 20) =~= wire::le_bytes(report.ttl_ms as nat, 4));
    assert(bytes.subrange(20, 24) =~= wire::le_bytes(report.max_samples as nat, 4));
    assert(bytes.subrange(24, 28) =~= wire::le_bytes(report.min_sample_threshold as nat, 4));
    assert(bytes.subrange(28, 32) =~= wire::le_bytes(report.observed_latency as nat, 4));
    protocol::lemma_field(bytes, 16, report.ttl_ms as nat, 4);
    protocol::lemma_field(bytes, 20, report.max_samples as nat, 4);
    protocol::lemma_field(bytes, 24, report.min_sample_threshold as nat, 4);
    protocol::lemma_field(bytes, 28, report.observed_latency as nat, 4);
}

/// Where one of several guards stands.
proof fn lemma_guard_at(guards: Seq<LatencyGuard>, i: int)
    ensures
        all_guard_bytes(guards).len() == 36 * guards.len(),
        0 <= i < guards.len() ==> all_guard_bytes(guards).subrange(36 * i, 36 * i + 36)
            == guard_bytes(guards[i]),
    decreases guards.len(),
{
    if guards.len() > 0 {
        let head = guards.drop_last();
        lemma_guard_at(head, i);
        lemma_guard_layout(guards.last());
        if 0 <= i < head.len() {
            assert(all_guard_bytes(guards).subrange(36 * i, 36 * i + 36) =~= all_guard_bytes(
                head,
            ).subrange(36 * i, 36 * i + 36));
        } else if i == head.len() {
            assert(all_guard_bytes(guards).subrange(36 * i, 36 * i + 36) =~= guard_bytes(
                guards[i],
            ));
        }
    }
}

/// Where one of several resources stands.
proof fn lemma_resource_at(resources: Seq<ResourceRequest>, i: int)
    ensures
        all_resource_bytes(resources).len() == 28 * resources.len(),
        0 <= i < resources.len() ==> all_resource_bytes(resources).subrange(28 * i, 28 * i + 28)
            == resource_bytes(resources[i]),
    decreases resources.len(),
{
    if resources.len() > 0 {
        let head = resources.drop_last();
        lemma_resource_at(head, i);
        lemma_resource_layout(resources.last());
        if 0 <= i < head.len() {
            assert(all_resource_bytes(resources).subrange(28 * i, 28 * i + 28)
                =~= all_resource_bytes(head).subrange(28 * i, 28 * i + 28));
        } else if i == head.len() {
            assert(all_resource_bytes(resources).subrange(28 * i, 28 * i + 28) =~= resource_bytes(
                resources[i],
            ));
        }
    }
}

/// Where one of several observations stands.
proof fn lemma_report_at(reports: Seq<ServiceLatencyReport>, i: int)
    ensures
        all_report_bytes(reports).len() == 32 * reports.len(),
        0 <= i < reports.len() ==> all_report_bytes(reports).subrange(32 * i, 32 * i + 32)
            == report_bytes(reports[i]),
    decreases reports.len(),
{
    if reports.len() > 0 {
        let head = reports.drop_last();
        lemma_report_at(head, i);
        lemma_report_layout(reports.last());
        if 0 <= i < head.len() {
            assert(all_report_bytes(reports).subrange(32 * i, 32 * i + 32) =~= all_report_bytes(
                head,
            ).subrange(32 * i, 32 * i + 32));
        } else if i == head.len() {
            assert(all_report_bytes(reports).subrange(32 * i, 32 * i + 32) =~= report_bytes(
                reports[i],
            ));
        }
    }
}

/// The words of a stretch are the words of the whole, further on.
proof fn lemma_field_of_part(bytes: Seq<u8>, part: Seq<u8>, at: int, i: int, n: int)
    requires
        0 <= at,
        at + part.len() <= bytes.len(),
        bytes.subrange(at, at + part.len()) == part,
        0 <= i,
        0 <= n,
        i + n <= part.len(),
    ensures
        bytes.subrange(at + i, at + i + n) == part.subrange(i, i + n),
        wire::le_field(bytes, at + i, n) == wire::le_field(part, i, n),
{
    assert(bytes.subrange(at + i, at + i + n) =~= part.subrange(i, i + n));
}

/// Every guard of a request stands in its body, each in a block of its own and
/// in the order of the request: the identifier of its tracker, the lifetime,
/// the maximum and the minimum of samples, the threshold, and a zero for the
/// latency that the server is to fill in.
#[verifier::spinoff_prover]
pub proof fn lemma_request_body_holds_every_guard(
    resources: Seq<ResourceRequest>,
    guards: Seq<LatencyGuard>,
    label: Option<Seq<u8>>,
    i: int,
)
    requires
        0 <= i < guards.len(),
    ensures
        ({
            let body = rate_request_body(resources, guards, label);
            let at = 4 + 36 * i;
            &&& body.len() >= at + 36
            &&& body.subrange(at, at + 16) == protocol::latency_tracker_id(
                utf8::encode_utf8(guards[i].latency_tracker_name@),
                guards[i].ttl_ms,
                guards[i].max_samples,
                guards[i].min_sample_threshold,
            )
            &&& wire::le_field(body, at + 16, 4) == guards[i].ttl_ms
            &&& wire::le_field(body, at + 20, 4) == guards[i].max_samples
            &&& wire::le_field(body, at + 24, 4) == guards[i].min_sample_threshold
            &&& wire::le_field(body, at + 28, 4) == guards[i].threshold_ms
            &&& wire::le_field(body, at + 32, 4) == 0
        }),
{
    let body = rate_request_body(resources, guards, label);
    let at = 4 + 36 * i;
    let block = guard_bytes(guards[i]);
    wire::lemma_le_bytes_len(guards.len() % 65_536, 2);
    wire::lemma_le_bytes_len(resources.len() % 65_536, 2);
    lemma_guard_at(guards, i);
    lemma_guard_layout(guards[i]);
    assert(body.subrange(at, at + 36) =~= all_guard_bytes(guards).subrange(36 * i, 36 * i + 36));
    lemma_field_of_part(body, block, at, 0, 16);
    lemma_field_of_part(body, block, at, 16, 4);
    lemma_field_of_part(body, block, at, 20, 4);
    lemma_field_of_part(body, block, at, 24, 4);
    lemma_field_of_part(body, block, at, 28, 4);
    lemma_field_of_part(body, block, at, 32, 4);
}

/// Every consumption of a request stands in its body, each in a block of its
/// own behind the guards and in the order of the request: the identifier of its
/// rate counter, the window, the limit, the tokens asked for, and a zero.
#[verifier::spinoff_prover]
pub proof fn lemma_request_body_holds_every_consumption(
    resources: Seq<ResourceRequest>,
    guards: Seq<LatencyGuard>,
    label: Option<Seq<u8>>,
    i: int,
)
    requires
        0 <= i < resources.len(),
    ensures
        ({
            let body = rate_request_body(resources, guards, label);
            let at = 4 + 36 * guards.len() + 28 * i;
            &&& body.len() >= at + 28
            &&& body.subrange(at, at + 16) == protocol::bucket_id(
                utf8::encode_utf8(resources[i].bucket_name@),
                resources[i].window_size_ms,
                resources[i].rate_limit,
            )
            &&& wire::le_field(body, at + 16, 4) == resources[i].window_size_ms
            &&& wire::le_field(body, at + 20, 4) == resources[i].rate_limit
            &&& wire::le_field(body, at + 24, 2) == resources[i].tokens_requested
            &&& wire::le_field(body, at + 26, 2) == 0
        }),
{
    let body = rate_request_body(resources, guards, label);
    let at = 4 + 36 * guards.len() + 28 * i;
    let block = resource_bytes(resources[i]);
    wire::lemma_le_bytes_len(guards.len() % 65_536, 2);
    wire::lemma_le_bytes_len(resources.len() % 65_536, 2);
    lemma_guard_at(guards, 0);
    lemma_resource_at(resources, i);
    lemma_resource_layout(resources[i]);
    assert(body.subrange(at, at + 28) =~= all_resource_bytes(resources).subrange(
        28 * i,
        28 * i + 28,
    ));
    lemma_field_of_part(body, block, at, 0, 16);
    lemma_field_of_part(body, block, at, 16, 4);
    lemma_field_of_part(body, block, at, 20, 4);
    lemma_field_of_part(body, block, at, 24, 2);
    lemma_field_of_part(body, block, at, 26, 2);
}

/// Behind guards and consumptions a request body holds its label, and nothing
/// else: a record with its type, its whole size, the length of the label, the
/// label byte by byte, and zeros up to a multiple of four. Without a label
/// nothing follows.
#[verifier::spinoff_prover]
pub proof fn lemma_request_body_ends_in_its_label(
    resources: Seq<ResourceRequest>,
    guards: Seq<LatencyGuard>,
    label: Option<Seq<u8>>,
)
    ensures
        ({
            let body = rate_request_body(resources, guards, label);
            let at = (4 + 36 * guards.len() + 28 * resources.len()) as int;
            match label {
                None => body.len() == at,
                Some(text) => text.len() <= 65_526 ==> {
                    &&& wire::le_field(body, at, 2) == 0x4C4D
                    &&& wire::le_field(body, at + 2, 2) == body.len() - at
                    &&& wire::le_field(body, at + 4, 2) == text.len()
                    &&& body.subrange(at + 6, at + 6 + text.len()) == text
                    &&& at + 6 + text.len() <= body.len() < at + 6 + text.len() + 4
                    &&& (body.len() - at) % 4 == 0
                    &&& forall|i: int|
                        at + 6 + text.len() <= i < body.len() ==> #[trigger] body[i] == 0
                },
            }
        }),
{
    let body = rate_request_body(resources, guards, label);
    let at = (4 + 36 * guards.len() + 28 * resources.len()) as int;
    wire::lemma_le_bytes_len(guards.len() % 65_536, 2);
    wire::lemma_le_bytes_len(resources.len() % 65_536, 2);
    lemma_guard_at(guards, 0);
    lemma_resource_at(resources, 0);
    if let Some(text) = label {
        if text.len() <= 65_526 {
            let size = label_tlv_size(text.len());
            lemma_longest_label(text);
            wire::lemma_byte_ranges();
            wire::lemma_le_bytes_len(protocol::TLV_METRICS_LABEL as nat, 2);
            wire::lemma_le_bytes_len(size, 2);
            wire::lemma_le_bytes_len(text.len(), 2);
            assert(label_padding(text.len()) <= 3);
            assert(size % 4 == 0);
            assert(body.subrange(at, at + 2) =~= wire::le_bytes(
                protocol::TLV_METRICS_LABEL as nat,
                2,
            ));
            assert(body.subrange(at + 2, at + 4) =~= wire::le_bytes(size, 2));
            assert(body.subrange(at + 4, at + 6) =~= wire::le_bytes(text.len(), 2));
            assert(body.subrange(at + 6, at + 6 + text.len()) =~= text);
            protocol::lemma_field(body, at, protocol::TLV_METRICS_LABEL as nat, 2);
            protocol::lemma_field(body, at + 2, size, 2);
            protocol::lemma_field(body, at + 4, text.len(), 2);
        }
    }
}

/// Requests with the same body ask for the same: as many guards and
/// consumptions, each for the same tracker or counter, with the same numbers,
/// and under the same label.
#[verifier::spinoff_prover]
pub proof fn lemma_equal_bodies_ask_for_the_same(
    resources1: Seq<ResourceRequest>,
    guards1: Seq<LatencyGuard>,
    label1: Option<Seq<u8>>,
    resources2: Seq<ResourceRequest>,
    guards2: Seq<LatencyGuard>,
    label2: Option<Seq<u8>>,
    i: int,
)
    requires
        resources1.len() < 65_536,
        resources2.len() < 65_536,
        guards1.len() < 65_536,
        guards2.len() < 65_536,
        label1 matches Some(text) ==> text.len() <= 65_526,
        label2 matches Some(text) ==> text.len() <= 65_526,
        rate_request_body(resources1, guards1, label1) == rate_request_body(
            resources2,
            guards2,
            label2,
        ),
    ensures
        resources1.len() == resources2.len(),
        guards1.len() == guards2.len(),
        label1 == label2,
        0 <= i < guards1.len() ==> {
            &&& guarded_tracker_id(guards1[i]) == guarded_tracker_id(guards2[i])
            &&& guards1[i].ttl_ms == guards2[i].ttl_ms
            &&& guards1[i].max_samples == guards2[i].max_samples
            &&& guards1[i].min_sample_threshold == guards2[i].min_sample_threshold
            &&& guards1[i].threshold_ms == guards2[i].threshold_ms
        },
        0 <= i < resources1.len() ==> {
            &&& consumed_bucket_id(resources1[i]) == consumed_bucket_id(resources2[i])
            &&& resources1[i].window_size_ms == resources2[i].window_size_ms
            &&& resources1[i].rate_limit == resources2[i].rate_limit
            &&& resources1[i].tokens_requested == resources2[i].tokens_requested
        },
{
    lemma_counts_are_exact(resources1, guards1, label1);
    lemma_counts_are_exact(resources2, guards2, label2);
    lemma_request_body_ends_in_its_label(resources1, guards1, label1);
    lemma_request_body_ends_in_its_label(resources2, guards2, label2);
    if 0 <= i < guards1.len() {
        lemma_request_body_holds_every_guard(resources1, guards1, label1, i);
        lemma_request_body_holds_every_guard(resources2, guards2, label2, i);
    }
    if 0 <= i < resources1.len() {
        lemma_request_body_holds_every_consumption(resources1, guards1, label1, i);
        lemma_request_body_holds_every_consumption(resources2, guards2, label2, i);
    }
}

/// A report body states the number of its observations and holds each of them
/// in a block of its own, in order: the identifier of the tracker, the
/// lifetime, the maximum and the minimum of samples, and the latency observed.
/// Nothing else is in it.
#[verifier::spinoff_prover]
pub proof fn lemma_report_body_holds_every_observation(reports: Seq<ServiceLatencyReport>, i: int)
    ensures
        ({
            let body = latency_report_body(reports);
            let at = 4 + 32 * i;
            &&& body.len() == 4 + 32 * reports.len()
            &&& reports.len() < 65_536 ==> wire::le_field(body, 0, 2) == reports.len()
            &&& wire::le_field(body, 2, 2) == 0
            &&& 0 <= i < reports.len() ==> {
                &&& body.subrange(at, at + 16) == protocol::latency_tracker_id(
                    utf8::encode_utf8(reports[i].latency_tracker_name@),
                    reports[i].ttl_ms,
                    reports[i].max_samples,
                    reports[i].min_sample_threshold,
                )
                &&& wire::le_field(body, at + 16, 4) == reports[i].ttl_ms
                &&& wire::le_field(body, at + 20, 4) == reports[i].max_samples
                &&& wire::le_field(body, at + 24, 4) == reports[i].min_sample_threshold
                &&& wire::le_field(body, at + 28, 4) == reports[i].observed_latency
            }
        }),
{
    let body = latency_report_body(reports);
    let at = 4 + 32 * i;
    let n = reports.len();
    wire::lemma_byte_ranges();
    wire::lemma_le_bytes_len(n % 65_536, 2);
    lemma_report_at(reports, i);
    assert(body.subrange(0, 2) =~= wire::le_bytes(n % 65_536, 2));
    assert(n < 65_536 ==> n % 65_536 == n);
    protocol::lemma_field(body, 0, n % 65_536, 2);
    wire::lemma_words_are_little_endian(body, 2);
    assert(body[2] == 0 && body[3] == 0);
    if 0 <= i < reports.len() {
        let block = report_bytes(reports[i]);
        lemma_report_layout(reports[i]);
        assert(body.subrange(at, at + 32) =~= all_report_bytes(reports).subrange(
            32 * i,
            32 * i + 32,
        ));
        lemma_field_of_part(body, block, at, 0, 16);
        lemma_field_of_part(body, block, at, 16, 4);
        lemma_field_of_part(body, block, at, 20, 4);
        lemma_field_of_part(body, block, at, 24, 4);
        lemma_field_of_part(body, block, at, 28, 4);
    }
}

/// Two stretches with the same identifier and the same three words behind it.
proof fn lemma_same_definition(a: Seq<u8>, at: int, b: Seq<u8>, to: int)
    requires
        0 <= at,
        at + 28 <= a.len(),
        0 <= to,
        to + 28 <= b.len(),
        a.subrange(at, at + 16) == b.subrange(to, to + 16),
        wire::le_field(a, at + 16, 4) == wire::le_field(b, to + 16, 4),
        wire::le_field(a, at + 20, 4) == wire::le_field(b, to + 20, 4),
        wire::le_field(a, at + 24, 4) == wire::le_field(b, to + 24, 4),
    ensures
        a.subrange(at, at + 28) == b.subrange(to, to + 28),
{
    let (a0, b0) = (a.subrange(at, at + 16), b.subrange(to, to + 16));
    let (a1, b1) = (a.subrange(at + 16, at + 20), b.subrange(to + 16, to + 20));
    let (a2, b2) = (a.subrange(at + 20, at + 24), b.subrange(to + 20, to + 24));
    let (a3, b3) = (a.subrange(at + 24, at + 28), b.subrange(to + 24, to + 28));
    wire::lemma_le_value_injective(a1, b1);
    wire::lemma_le_value_injective(a2, b2);
    wire::lemma_le_value_injective(a3, b3);
    assert(a.subrange(at, at + 28) =~= a0 + a1 + a2 + a3);
    assert(b.subrange(to, to + 28) =~= b0 + b1 + b2 + b3);
}

/// A guard and a report of one tracker agree byte by byte on what defines the
/// tracker: the identifier, the lifetime, the maximum and the minimum of
/// samples.
#[verifier::spinoff_prover]
pub proof fn lemma_guard_and_report_agree(
    resources: Seq<ResourceRequest>,
    guards: Seq<LatencyGuard>,
    label: Option<Seq<u8>>,
    i: int,
    reports: Seq<ServiceLatencyReport>,
    j: int,
)
    requires
        0 <= i < guards.len(),
        0 <= j < reports.len(),
        guards[i].latency_tracker_name@ == reports[j].latency_tracker_name@,
        guards[i].ttl_ms == reports[j].ttl_ms,
        guards[i].max_samples == reports[j].max_samples,
        guards[i].min_sample_threshold == reports[j].min_sample_threshold,
    ensures
        rate_request_body(resources, guards, label).subrange(4 + 36 * i, 4 + 36 * i + 28)
            == latency_report_body(reports).subrange(4 + 32 * j, 4 + 32 * j + 28),
{
    lemma_request_body_holds_every_guard(resources, guards, label, i);
    lemma_report_body_holds_every_observation(reports, j);
    lemma_same_definition(
        rate_request_body(resources, guards, label),
        4 + 36 * i,
        latency_report_body(reports),
        4 + 32 * j,
    );
}

/// The header of a PDU has eight bytes, and the body follows as it is.
pub proof fn lemma_body_follows_pdu_header(pdu_type: u16, word: nat, body: Seq<u8>)
    ensures
        pdu_bytes(pdu_type, word, body).len() == 8 + body.len(),
        pdu_bytes(pdu_type, word, body).skip(8) == body,
{
    wire::lemma_le_bytes_len(pdu_type as nat, 2);
    wire::lemma_le_bytes_len((PDU_HEADER_LEN + body.len()) as nat, 2);
    wire::lemma_le_bytes_len(word, 4);
    assert(pdu_bytes(pdu_type, word, body).skip(8) =~= body);
}

/// A PDU begins with its type, its whole size and one more word, and the body
/// follows as it is.
pub proof fn lemma_pdu_layout(pdu_type: u16, word: nat, body: Seq<u8>)
    requires
        word <= u32::MAX,
        8 + body.len() <= 65_535,
    ensures
        ({
            let pdu = pdu_bytes(pdu_type, word, body);
            &&& pdu.len() == 8 + body.len()
            &&& wire::le_field(pdu, 0, 2) == pdu_type
            &&& wire::le_field(pdu, 2, 2) == pdu.len()
            &&& wire::le_field(pdu, 4, 4) == word
            &&& pdu.skip(8) == body
        }),
{
    let pdu = pdu_bytes(pdu_type, word, body);
    let size = (PDU_HEADER_LEN + body.len()) as nat;
    wire::lemma_byte_ranges();
    wire::lemma_le_bytes_len(pdu_type as nat, 2);
    wire::lemma_le_bytes_len(size, 2);
    wire::lemma_le_bytes_len(word, 4);
    assert(pdu.subrange(0, 2) =~= wire::le_bytes(pdu_type as nat, 2));
    assert(pdu.subrange(2, 4) =~= wire::le_bytes(size, 2));
    assert(pdu.subrange(4, 8) =~= wire::le_bytes(word, 4));
    assert(pdu.skip(8) =~= body);
    protocol::lemma_field(pdu, 0, pdu_type as nat, 2);
    protocol::lemma_field(pdu, 2, size, 2);
    protocol::lemma_field(pdu, 4, word, 4);
}

/// The PDU of a resource request is of the type of requests, tells for how long
/// servers are to remember the request, and holds the request's body; that of a
/// latency report is of the type of reports, holds zero in that place, and the
/// report's body.
pub proof fn lemma_pdus_of_requests_and_reports(
    dedup_ttl_ms: nat,
    resources: Seq<ResourceRequest>,
    guards: Seq<LatencyGuard>,
    label: Option<Seq<u8>>,
    reports: Seq<ServiceLatencyReport>,
)
    ensures
        ({
            let body = rate_request_body(resources, guards, label);
            let pdu = rate_request_pdu(dedup_ttl_ms, resources, guards, label);
            dedup_ttl_ms <= u32::MAX && 8 + body.len() <= 65_535 ==> {
                &&& wire::le_field(pdu, 0, 2) == 0x5452
                &&& wire::le_field(pdu, 2, 2) == pdu.len()
                &&& wire::le_field(pdu, 4, 4) == dedup_ttl_ms
                &&& pdu.len() == 8 + body.len()
                &&& pdu.skip(8) == body
            }
        }),
        ({
            let body = latency_report_body(reports);
            let pdu = latency_report_pdu(reports);
            8 + body.len() <= 65_535 ==> {
                &&& wire::le_field(pdu, 0, 2) == 0x524C
                &&& wire::le_field(pdu, 2, 2) == pdu.len()
                &&& wire::le_field(pdu, 4, 4) == 0
                &&& pdu.len() == 8 + body.len()
                &&& pdu.skip(8) == body
            }
        }),
{
    let body = rate_request_body(resources, guards, label);
    if dedup_ttl_ms <= u32::MAX && 8 + body.len() <= 65_535 {
        lemma_pdu_layout(protocol::PDU_RATE_REQUEST, dedup_ttl_ms, body);
    }
    let observed = latency_report_body(reports);
    if 8 + observed.len() <= 65_535 {
        lemma_pdu_layout(protocol::PDU_LATENCY_REPORT, 0, observed);
    }
}

/// What a server finds in a packet that carries a PDU: the header of forty
/// bytes with the key, the request and the time, and whether advice on the
/// source port is wanted; then what proves the key, and the PDU, all of it and
/// nothing else. A cookie stands in the open; under AES-256-GCM the PDU comes
/// out of decryption with the key of the client, provided that nothing before
/// the tag was changed.
#[verifier::spinoff_prover]
pub proof fn lemma_what_a_server_finds(
    packet: Seq<u8>,
    setup: CoreClientView,
    request_id: Seq<u8>,
    time_stamp: u64,
    pdu: Seq<u8>,
)
    requires
        carries(packet, setup, request_id, time_stamp, pdu),
        request_id.len() == 16,
    ensures
        packet.len() <= 1200,
        wire::le_field(packet, 0, 2) == 0x4C52,
        wire::le_field(packet, 2, 2) == 40,
        wire::le_field(packet, 4, 8) == setup.key_id,
        packet.subrange(12, 28) == request_id,
        wire::le_field(packet, 28, 8) == time_stamp,
        setup.steering_feedback ==> packet[36] == 1,
        !setup.steering_feedback ==> packet[36] == 0,
        packet[37] == 0 && packet[38] == 0 && packet[39] == 0,
        match setup.auth_method {
            AuthMethod::Unauthenticated => {
                &&& wire::le_field(packet, 40, 2) == 0x414E
                &&& wire::le_field(packet, 42, 2) == 4
                &&& packet.skip(44) == pdu
            },
            AuthMethod::Cookie(secret) => {
                &&& wire::le_field(packet, 40, 2) == 0x4143
                &&& wire::le_field(packet, 42, 2) == 36
                &&& packet.subrange(44, 76) == secret@
                &&& packet.skip(76) == pdu
            },
            AuthMethod::AesGcm(secret) => {
                &&& wire::le_field(packet, 40, 2) == 0x4541
                &&& wire::le_field(packet, 42, 2) == 32
                &&& crypto::aes256_gcm_opened(
                    secret@,
                    packet.subrange(44, 56),
                    packet.take(56),
                    packet.skip(72) + packet.subrange(56, 72),
                ) == Some(pdu)
            },
        },
{
    let nonce = choose|nonce: Seq<u8>|
        #[trigger] is_packet(packet, setup, request_id, time_stamp, nonce, pdu);
    let front = request_header(setup, request_id, time_stamp);
    wire::lemma_byte_ranges();
    wire::lemma_le_bytes_len(protocol::TLV_TENANT as nat, 2);
    wire::lemma_le_bytes_len(protocol::TENANT_TLV_LEN as nat, 2);
    wire::lemma_le_bytes_len(setup.key_id as nat, 8);
    wire::lemma_le_bytes_len(time_stamp as nat, 8);
    assert(front.len() == 40);
    assert(packet.take(40) =~= front);
    assert(packet.subrange(0, 2) =~= wire::le_bytes(protocol::TLV_TENANT as nat, 2));
    assert(packet.subrange(2, 4) =~= wire::le_bytes(protocol::TENANT_TLV_LEN as nat, 2));
    assert(packet.subrange(4, 12) =~= wire::le_bytes(setup.key_id as nat, 8));
    assert(packet.subrange(12, 28) =~= request_id);
    assert(packet.subrange(28, 36) =~= wire::le_bytes(time_stamp as nat, 8));
    assert(packet[36] == front[36] && packet[37] == front[37]);
    assert(packet[38] == front[38] && packet[39] == front[39]);
    protocol::lemma_field(packet, 0, protocol::TLV_TENANT as nat, 2);
    protocol::lemma_field(packet, 2, protocol::TENANT_TLV_LEN as nat, 2);
    protocol::lemma_field(packet, 4, setup.key_id as nat, 8);
    protocol::lemma_field(packet, 28, time_stamp as nat, 8);
}

/// A request is refused for its size exactly if its label is longer than a
/// record can hold, or the packet would have more than 1200 bytes: header,
/// authentication, PDU header, counts, 36 bytes for each guard, 28 for each
/// consumption, and the label with its lengths, filled up to a multiple of
/// four.
pub proof fn lemma_which_requests_fit(
    method: AuthMethod,
    resources: Seq<ResourceRequest>,
    guards: Seq<LatencyGuard>,
    label: Option<Seq<u8>>,
)
    ensures
        ({
            let auth: nat = match method {
                AuthMethod::Unauthenticated => 4,
                AuthMethod::Cookie(_) => 36,
                AuthMethod::AesGcm(_) => 32,
            };
            let labelled: nat = match label {
                Some(text) => (6 + text.len() + 3) / 4 * 4,
                None => 0,
            };
            rate_request_error(method, resources, guards, label) is None <==> (label matches Some(
                text,
            ) ==> text.len() <= 65_526) && 40 + auth + 8 + 4 + 36 * guards.len() + 28
                * resources.len() + labelled <= 1200
        }),
{
    if let Some(text) = label {
        lemma_longest_label(text);
        let n = text.len();
        assert(label_tlv_size(n) == (6 + n + 3) / 4 * 4);
    }
}

/// A report is refused for its size exactly if the packet would have more than
/// 1200 bytes, 32 of them for each observation.
pub proof fn lemma_which_reports_fit(method: AuthMethod, reports: nat)
    ensures
        ({
            let auth: nat = match method {
                AuthMethod::Unauthenticated => 4,
                AuthMethod::Cookie(_) => 36,
                AuthMethod::AesGcm(_) => 32,
            };
            &&& body_error(method, latency_report_len(reports)) is None <==> 40 + auth + 8 + 4 + 32
                * reports <= 1200
            &&& body_error(method, latency_report_len(reports)) matches Some(e) ==> e is Protocol
        }),
{
}

/// Type and size at `pos` are read as they were written.
proof fn lemma_auth_head_read(packet: Seq<u8>, pos: int, method: AuthMethod)
    requires
        0 <= pos,
        pos + 4 <= packet.len(),
        packet.subrange(pos, pos + 4) == auth_head(method),
    ensures
        wire::le_field(packet, pos, 2) == response_wire::auth_type(method),
        wire::le_field(packet, pos + 2, 2) == auth_size(method),
{
    let head = auth_head(method);
    let (t, n) = (response_wire::auth_type(method) as nat, auth_size(method));
    wire::lemma_byte_ranges();
    wire::lemma_le_bytes_len(t, 2);
    wire::lemma_le_bytes_len(n, 2);
    assert(packet.subrange(pos, pos + 2) =~= head.subrange(0, 2));
    assert(packet.subrange(pos + 2, pos + 4) =~= head.subrange(2, 4));
    assert(head.subrange(0, 2) =~= wire::le_bytes(t, 2));
    assert(head.subrange(2, 4) =~= wire::le_bytes(n, 2));
    protocol::lemma_field(packet, pos, t, 2);
    protocol::lemma_field(packet, pos + 2, n, 2);
}

/// A packet on its way out, and the identifier by which its responses are
/// known.
pub struct OutgoingPacket {
    /// The request identifier.
    pub request_id: [u8; 16],
    /// The bytes to send.
    pub packet: BytesMut,
}

impl CoreClient {
    /// The header of a packet from this client.
    pub fn build_tenant_header(&self, request_id: &[u8; 16], time_stamp: u64) -> (header:
        TenantHeader)
        ensures
            header.on_wire() == request_header(self@, request_id@, time_stamp),
    {
        let header: TenantHeader = TenantHeader {
            tlv_type: protocol::TLV_TENANT,
            tlv_size: 40,
            key_id: self.key_id(),
            unique_id: *request_id,
            time_stamp,
            steering_feedback: if self.steering_feedback() {
                1
            } else {
                0
            },
            tenant_mgmt_flag: 0,
            padding: [0, 0],
        };
        assert(header.padding@ =~= seq![0u8, 0u8]);
        header
    }

    /// Makes room for a header and writes it to the front of the packet.
    pub fn write_tenant_header(packet: &mut BytesMut, header: &TenantHeader)
        requires
            buffer::may_hold(buffer::buffer_bytes(*old(packet)).len() + protocol::TENANT_TLV_LEN as nat),
        ensures
            buffer::buffer_bytes(*final(packet)) == wire::patched(
                buffer::buffer_bytes(*old(packet)) + zeros(protocol::TENANT_TLV_LEN as nat),
                0,
                header.on_wire(),
            ),
    {
        let room: [u8; 40] = [0u8; 40];
        assert(room@ =~= zeros(40));
        packet.extend_from_slice(&room);
        header.write_to_buffer(buffer::buffer_slice_mut(packet));
    }

    /// Bytes of an authentication TLV.
    pub fn auth_header_size(auth_method: &AuthMethod) -> (size: usize)
        ensures
            size as nat == auth_size(*auth_method),
    {
        match auth_method {
            AuthMethod::Unauthenticated => 4,
            AuthMethod::Cookie(_) => 36,
            AuthMethod::AesGcm(_) => 32,
        }
    }

    /// Appends what encryption returned: nonce, tag, encrypted PDU.
    pub fn append_sealed(
        packet: &mut BytesMut,
        nonce: &[u8; 12],
        auth_tag: &[u8; 16],
        encrypted_pdu: &[u8],
    )
        requires
            buffer::may_hold(buffer::buffer_bytes(*old(packet)).len() + 28 + encrypted_pdu@.len()),
        ensures
            buffer::buffer_bytes(*final(packet)) == buffer::buffer_bytes(*old(packet)) + nonce@
                + auth_tag@ + encrypted_pdu@,
    {
        packet.extend_from_slice(nonce);
        packet.extend_from_slice(auth_tag);
        packet.extend_from_slice(encrypted_pdu);
    }

    /// Appends the authentication TLV and the PDU, encrypted under the given
    /// nonce where the method is AES-256-GCM. Reading them back gives the PDU.
    pub fn append_auth_tlv_with_nonce(
        &self,
        packet: &mut BytesMut,
        pdu_data: &[u8],
        nonce: &[u8; 12],
    )
        requires
            buffer::may_hold(buffer::buffer_bytes(*old(packet)).len() + 48 + pdu_data@.len()),
            self@.auth_method is AesGcm ==> pdu_data@.len() <= crypto::AES_GCM_MAX
                && buffer::buffer_bytes(*old(packet)).len() + 16 <= crypto::AES_GCM_MAX,
        ensures
            buffer::buffer_bytes(*final(packet)) == buffer::buffer_bytes(*old(packet)) + auth_tail(
                buffer::buffer_bytes(*old(packet)),
                self@.auth_method,
                nonce@,
                pdu_data@,
            ),
            buffer::buffer_bytes(*final(packet)).len() == buffer::buffer_bytes(*old(packet)).len()
                + auth_size(self@.auth_method) + pdu_data@.len(),
            read_back(
                buffer::buffer_bytes(*final(packet)),
                buffer::buffer_bytes(*old(packet)).len() as int,
                self@.auth_method,
            ) == Ok::<_, CoreErrorView>(pdu_data@),
    {
        let ghost front = buffer::buffer_bytes(*packet);
        let ghost pos = front.len() as int;
        let auth_method: AuthMethod = self.auth_method();
        proof {
            wire::lemma_le_bytes_len(response_wire::auth_type(auth_method) as nat, 2);
            wire::lemma_le_bytes_len(auth_size(auth_method), 2);
        }
        match auth_method {
            AuthMethod::Unauthenticated => {
                packet.extend_from_slice(&wire::u16_le(protocol::TLV_AUTH_NONE));
                packet.extend_from_slice(&wire::u16_le(4));
                packet.extend_from_slice(pdu_data);
                proof {
                    let out = buffer::buffer_bytes(*packet);
                    assert(out =~= front + auth_tail(front, auth_method, nonce@, pdu_data@));
                    assert(out.subrange(pos, pos + 4) =~= auth_head(auth_method));
                    lemma_auth_head_read(out, pos, auth_method);
                    assert(out.skip(pos + 4) =~= pdu_data@);
                }
            },
            AuthMethod::Cookie(cookie) => {
                packet.extend_from_slice(&wire::u16_le(protocol::TLV_AUTH_COOKIE));
                packet.extend_from_slice(&wire::u16_le(36));
                packet.extend_from_slice(&cookie);
                packet.extend_from_slice(pdu_data);
                proof {
                    let out = buffer::buffer_bytes(*packet);
                    assert(out =~= front + auth_tail(front, auth_method, nonce@, pdu_data@));
                    assert(out.subrange(pos, pos + 4) =~= auth_head(auth_method));
                    lemma_auth_head_read(out, pos, auth_method);
                    assert(out.subrange(pos + 4, pos + 36) =~= cookie@);
                    assert(out.skip(pos + 36) =~= pdu_data@);
                }
            },
            AuthMethod::AesGcm(key) => {
                packet.extend_from_slice(&wire::u16_le(protocol::TLV_AUTH_AES));
                packet.extend_from_slice(&wire::u16_le(32));
                assert(buffer::buffer_bytes(*packet) =~= front + auth_head(auth_method));
                let (encrypted_pdu, auth_tag) = encrypt_pdu_with_nonce(
                    pdu_data,
                    &key,
                    buffer::buffer_slice(packet),
                    nonce,
                );
                CoreClient::append_sealed(packet, nonce, &auth_tag, encrypted_pdu.as_slice());
                proof {
                    let out = buffer::buffer_bytes(*packet);
                    let sealed = encrypted_pdu@ + auth_tag@;
                    assert(sealed.skip(pdu_data@.len() as int) =~= auth_tag@);
                    assert(sealed.take(pdu_data@.len() as int) =~= encrypted_pdu@);
                    assert(out =~= front + auth_tail(front, auth_method, nonce@, pdu_data@));
                    assert(out.subrange(pos, pos + 4) =~= auth_head(auth_method));
                    lemma_auth_head_read(out, pos, auth_method);
                    assert(out.subrange(pos + 4, pos + 16) =~= nonce@);
                    assert(out.take(pos + 16) =~= front + auth_head(auth_method) + nonce@);
                    assert(out.skip(pos + 32) + out.subrange(pos + 16, pos + 32) =~= sealed);
                }
            },
        }
    }

    /// Appends the authentication TLV and the PDU, encrypted under a fresh
    /// nonce where the method is AES-256-GCM. Reading them back gives the PDU.
    pub fn append_auth_tlv(&self, packet: &mut BytesMut, pdu_data: &[u8])
        requires
            buffer::may_hold(buffer::buffer_bytes(*old(packet)).len() + 48 + pdu_data@.len()),
            self@.auth_method is AesGcm ==> pdu_data@.len() <= crypto::AES_GCM_MAX
                && buffer::buffer_bytes(*old(packet)).len() + 16 <= crypto::AES_GCM_MAX,
        ensures
            exists|nonce: Seq<u8>|
                nonce.len() == 12 && buffer::buffer_bytes(*final(packet)) == buffer::buffer_bytes(
                    *old(packet),
                ) + #[trigger] auth_tail(
                    buffer::buffer_bytes(*old(packet)),
                    self@.auth_method,
                    nonce,
                    pdu_data@,
                ),
            read_back(
                buffer::buffer_bytes(*final(packet)),
                buffer::buffer_bytes(*old(packet)).len() as int,
                self@.auth_method,
            ) == Ok::<_, CoreErrorView>(pdu_data@),
    {
        let nonce: [u8; 12] = crypto::random_nonce();
        self.append_auth_tlv_with_nonce(packet, pdu_data, &nonce);
        assert(nonce@.len() == 12 && buffer::buffer_bytes(*packet) == buffer::buffer_bytes(
            *old(packet),
        ) + auth_tail(
            buffer::buffer_bytes(*old(packet)),
            self@.auth_method,
            nonce@,
            pdu_data@,
        ));
    }

    /// Puts header, authentication and PDU together.
    pub fn build_packet(
        &self,
        pdu_data: &[u8],
        request_id: &[u8; 16],
        time_stamp: u64,
        nonce: &[u8; 12],
    ) -> (built: Result<BytesMut, CoreError>)
        requires
            pdu_data@.len() <= MAX_SIZED,
        ensures
            match built {
                Ok(packet) => {
                    &&& packet_error(self@.auth_method, pdu_data@.len()) is None
                    &&& buffer::buffer_bytes(packet) == packet_bytes(
                        self@,
                        request_id@,
                        time_stamp,
                        nonce@,
                        pdu_data@,
                    )
                    &&& buffer::buffer_bytes(packet).len() <= MAX_PACKET_SIZE
                    &&& read_back(
                        buffer::buffer_bytes(packet),
                        protocol::TENANT_TLV_LEN as int,
                        self@.auth_method,
                    ) == Ok::<_, CoreErrorView>(pdu_data@)
                },
                Err(e) => packet_error(self@.auth_method, pdu_data@.len()) == Some(e@),
            },
    {
        let auth_method: AuthMethod = self.auth_method();
        let auth_header_size: usize = CoreClient::auth_header_size(&auth_method);
        if protocol::TENANT_TLV_LEN + auth_header_size + pdu_data.len() > MAX_PACKET_SIZE {
            return Err(CoreError::Protocol("Packet too large for MTU target".to_owned()));
        }
        let header: TenantHeader = self.build_tenant_header(request_id, time_stamp);
        let mut packet: BytesMut = BytesMut::with_capacity(MAX_PACKET_SIZE);
        CoreClient::write_tenant_header(&mut packet, &header);
        proof {
            let front = request_header(self@, request_id@, time_stamp);
            wire::lemma_le_bytes_len(protocol::TLV_TENANT as nat, 2);
            wire::lemma_le_bytes_len(protocol::TENANT_TLV_LEN as nat, 2);
            wire::lemma_le_bytes_len(self@.key_id as nat, 8);
            wire::lemma_le_bytes_len(time_stamp as nat, 8);
            assert(front.len() == 40);
            assert(buffer::buffer_bytes(packet) =~= front);
        }
        self.append_auth_tlv_with_nonce(&mut packet, pdu_data, nonce);
        Ok(packet)
    }

    /// A resource request under the given identifier, time and nonce.
    pub fn build_rate_request_with(
        &self,
        resources: &[ResourceRequest],
        guards: &[LatencyGuard],
        metrics_label: Option<&str>,
        request_id: &[u8; 16],
        time_stamp: u64,
        nonce: &[u8; 12],
    ) -> (built: Result<BytesMut, CoreError>)
        requires
            names_fit(resources@, guards@),
            buffer::may_hold(4 + guards@.len() * 36 + resources@.len() * 28 + MAX_SIZED as nat),
        ensures
            match built {
                Ok(packet) => {
                    &&& rate_request_error(
                        self@.auth_method,
                        resources@,
                        guards@,
                        label_text(metrics_label),
                    ) is None
                    &&& buffer::buffer_bytes(packet) == packet_bytes(
                        self@,
                        request_id@,
                        time_stamp,
                        nonce@,
                        rate_request_pdu(
                            self@.request_policy.horizon(),
                            resources@,
                            guards@,
                            label_text(metrics_label),
                        ),
                    )
                    &&& buffer::buffer_bytes(packet).len() <= MAX_PACKET_SIZE
                    &&& read_back(
                        buffer::buffer_bytes(packet),
                        protocol::TENANT_TLV_LEN as int,
                        self@.auth_method,
                    ) == Ok::<_, CoreErrorView>(
                        rate_request_pdu(
                            self@.request_policy.horizon(),
                            resources@,
                            guards@,
                            label_text(metrics_label),
                        ),
                    )
                },
                Err(e) => rate_request_error(
                    self@.auth_method,
                    resources@,
                    guards@,
                    label_text(metrics_label),
                ) == Some(e@),
            },
    {
        let body: BytesMut = match CoreClient::build_rate_request_body(
            resources,
            guards,
            metrics_label,
        ) {
            Ok(b) => b,
            Err(e) => return Err(e),
        };
        let pdu: BytesMut = match CoreClient::build_rate_request_pdu(
            self.dedup_ttl_ms(),
            buffer::buffer_slice(&body),
        ) {
            Ok(p) => p,
            Err(e) => return Err(e),
        };
        self.build_packet(buffer::buffer_slice(&pdu), request_id, time_stamp, nonce)
    }

    /// A resource request under a fresh identifier and nonce.
    pub fn build_rate_request(
        &self,
        resources: &[ResourceRequest],
        guards: &[LatencyGuard],
        metrics_label: Option<&str>,
        time_stamp: u64,
    ) -> (built: Result<OutgoingPacket, CoreError>)
        requires
            names_fit(resources@, guards@),
            buffer::may_hold(4 + guards@.len() * 36 + resources@.len() * 28 + MAX_SIZED as nat),
        ensures
            match built {
                Ok(outgoing) => {
                    &&& rate_request_error(
                        self@.auth_method,
                        resources@,
                        guards@,
                        label_text(metrics_label),
                    ) is None
                    &&& crypto::is_random_uuid(outgoing.request_id@)
                    &&& carries(
                        buffer::buffer_bytes(outgoing.packet),
                        self@,
                        outgoing.request_id@,
                        time_stamp,
                        rate_request_pdu(
                            self@.request_policy.horizon(),
                            resources@,
                            guards@,
                            label_text(metrics_label),
                        ),
                    )
                },
                Err(e) => rate_request_error(
                    self@.auth_method,
                    resources@,
                    guards@,
                    label_text(metrics_label),
                ) == Some(e@),
            },
    {
        let request_id: [u8; 16] = crypto::random_uuid();
        let nonce: [u8; 12] = crypto::random_nonce();
        match self.build_rate_request_with(
            resources,
            guards,
            metrics_label,
            &request_id,
            time_stamp,
            &nonce,
        ) {
            Ok(packet) => {
                let outgoing: OutgoingPacket = OutgoingPacket { request_id, packet };
                assert(is_packet(
                    buffer::buffer_bytes(outgoing.packet),
                    self@,
                    outgoing.request_id@,
                    time_stamp,
                    nonce@,
                    rate_request_pdu(
                        self@.request_policy.horizon(),
                        resources@,
                        guards@,
                        label_text(metrics_label),
                    ),
                ));
                Ok(outgoing)
            },
            Err(e) => Err(e),
        }
    }

    /// A latency report under the given identifier, time and nonce.
    pub fn build_latency_report_with(
        &self,
        reports: &[ServiceLatencyReport],
        request_id: &[u8; 16],
        time_stamp: u64,
        nonce: &[u8; 12],
    ) -> (built: Result<BytesMut, CoreError>)
        requires
            report_names_fit(reports@),
            buffer::may_hold(4 + reports@.len() * 32),
        ensures
            match built {
                Ok(packet) => {
                    &&& body_error(
                        self@.auth_method,
                        latency_report_len(reports@.len()),
                    ) is None
                    &&& buffer::buffer_bytes(packet) == packet_bytes(
                        self@,
                        request_id@,
                        time_stamp,
                        nonce@,
                        latency_report_pdu(reports@),
                    )
                    &&& buffer::buffer_bytes(packet).len() <= MAX_PACKET_SIZE
                    &&& read_back(
                        buffer::buffer_bytes(packet),
                        protocol::TENANT_TLV_LEN as int,
                        self@.auth_method,
                    ) == Ok::<_, CoreErrorView>(latency_report_pdu(reports@))
                },
                Err(e) => body_error(self@.auth_method, latency_report_len(reports@.len()))
                    == Some(e@),
            },
    {
        let body: BytesMut = CoreClient::build_latency_report_body(reports);
        let pdu: BytesMut = match CoreClient::build_pdu(
            protocol::PDU_LATENCY_REPORT,
            buffer::buffer_slice(&body),
        ) {
            Ok(p) => p,
            Err(e) => return Err(e),
        };
        self.build_packet(buffer::buffer_slice(&pdu), request_id, time_stamp, nonce)
    }

    /// A latency report under a fresh identifier and nonce.
    pub fn build_latency_report(&self, reports: &[ServiceLatencyReport], time_stamp: u64) -> (built:
        Result<OutgoingPacket, CoreError>)
        requires
            report_names_fit(reports@),
            buffer::may_hold(4 + reports@.len() * 32),
        ensures
            match built {
                Ok(outgoing) => {
                    &&& body_error(
                        self@.auth_method,
                        latency_report_len(reports@.len()),
                    ) is None
                    &&& crypto::is_random_uuid(outgoing.request_id@)
                    &&& carries(
                        buffer::buffer_bytes(outgoing.packet),
                        self@,
                        outgoing.request_id@,
                        time_stamp,
                        latency_report_pdu(reports@),
                    )
                },
                Err(e) => body_error(self@.auth_method, latency_report_len(reports@.len()))
                    == Some(e@),
            },
    {
        let request_id: [u8; 16] = crypto::random_uuid();
        let nonce: [u8; 12] = crypto::random_nonce();
        match self.build_latency_report_with(reports, &request_id, time_stamp, &nonce) {
            Ok(packet) => {
                let outgoing: OutgoingPacket = OutgoingPacket { request_id, packet };
                assert(is_packet(
                    buffer::buffer_bytes(outgoing.packet),
                    self@,
                    outgoing.request_id@,
                    time_stamp,
                    nonce@,
                    latency_report_pdu(reports@),
                ));
                Ok(outgoing)
            },
            Err(e) => Err(e),
        }
    }

    /// The packet of a latency report, unless there is nothing to report: then
    /// nothing is to be sent.
    pub fn prepare_latency_report(
        &self,
        reports: &[ServiceLatencyReport],
        time_stamp: u64,
    ) -> (prepared: Option<Result<OutgoingPacket, CoreError>>)
        requires
            report_names_fit(reports@),
            buffer::may_hold(4 + reports@.len() * 32),
        ensures
            match prepared {
                None => reports@.len() == 0,
                Some(Ok(outgoing)) => {
                    &&& reports@.len() > 0
                    &&& body_error(
                        self@.auth_method,
                        latency_report_len(reports@.len()),
                    ) is None
                    &&& crypto::is_random_uuid(outgoing.request_id@)
                    &&& carries(
                        buffer::buffer_bytes(outgoing.packet),
                        self@,
                        outgoing.request_id@,
                        time_stamp,
                        latency_report_pdu(reports@),
                    )
                },
                Some(Err(e)) => {
                    &&& reports@.len() > 0
                    &&& body_error(self@.auth_method, latency_report_len(reports@.len())) == Some(
                        e@,
                    )
                },
            },
    {
        if reports.len() == 0 {
            return None;
        }
        Some(self.build_latency_report(reports, time_stamp))
    }
}

} // verus!
