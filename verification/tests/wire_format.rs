use std::time::Duration;

use bytes::BytesMut;
use ratelimitly::api_key_codec::bech32_encode;
use ratelimitly::client::CoreClient;
use ratelimitly::config::AuthMethod;
use ratelimitly::error::CoreError;
use ratelimitly::protocol::{
    decrypt_pdu, encrypt_pdu, encrypt_pdu_with_nonce, joined_bytes, split_sealed, GuardBlock,
    LatencyGuard, NotAuthentic, ResourceBlock, ResourceRequest,
    ServiceLatencyBlock, ServiceLatencyReport, TenantHeader, PDU_LATENCY_REPORT, PDU_RATE_REQUEST,
    PDU_RATE_RESPONSE, SERVICE_LATENCY_BLOCK_WIRE_LEN, TLV_AUTH_AES, TLV_AUTH_COOKIE,
    TLV_AUTH_NONE, TLV_METRICS_LABEL, TLV_TENANT,
};
use ratelimitly::response_wire::SealedPdu;
use ratelimitly::{ApiKey, Client, Error, LatencyTracker, Resource};

fn le16(bytes: &[u8], at: usize) -> u16 {
    u16::from_le_bytes([bytes[at], bytes[at + 1]])
}

fn le32(bytes: &[u8], at: usize) -> u32 {
    u32::from_le_bytes([bytes[at], bytes[at + 1], bytes[at + 2], bytes[at + 3]])
}

fn client_with(method: &str, secret: &[u8]) -> Client {
    let word: u32 = 16 | (10 << 5) | (12 << 10) | (5 << 15) | (30 << 19) | (31 << 27);
    let mut payload = vec![1u8];
    payload.extend_from_slice(&77u64.to_le_bytes());
    payload.extend_from_slice(secret);
    payload.extend_from_slice(&word.to_le_bytes());
    let key: ApiKey = bech32_encode(&format!("rl-{method}"), &payload)
        .expect("encode")
        .parse()
        .expect("valid key");
    Client::builder(key).build().expect("client")
}

#[test]
fn metrics_label_tlv_encoding() {
    let mut body = BytesMut::new();
    CoreClient::append_metrics_label_tlv(&mut body, "api").expect("tlv");

    let expected = [
        0x4D, 0x4C, // TLV type (LE)
        0x0C, 0x00, // TLV size = 12
        0x03, 0x00, // label length = 3
        b'a', b'p', b'i', 0x00, 0x00, 0x00, // padding
    ];
    assert_eq!(&body[..], &expected);
}

#[test]
fn metrics_labels_that_no_tlv_holds_are_refused() {
    let mut body = BytesMut::new();
    let message = |outcome: Result<(), CoreError>| match outcome {
        Err(CoreError::Protocol(message)) => message,
        _ => panic!("accepted"),
    };
    let too_long = "x".repeat(65_536);
    let too_large = "x".repeat(65_527);
    assert_eq!(
        message(CoreClient::append_metrics_label_tlv(&mut body, &too_long)),
        "Metrics label too long"
    );
    assert_eq!(
        message(CoreClient::append_metrics_label_tlv(&mut body, &too_large)),
        "Metrics label TLV too large"
    );
    assert!(body.is_empty());
    let longest = "x".repeat(65_526);
    CoreClient::append_metrics_label_tlv(&mut body, &longest).expect("fits");
    assert_eq!(body.len(), 65_532);
}

#[test]
fn aes_gcm_aad_rejects_tamper() {
    let key = [0x11u8; 32];
    let aad_prefix = [0x22u8; 44];
    let pdu = b"\x52\x54\x0c\x00\x2c\x01\x00\x00";

    let (encrypted_pdu, nonce, auth_tag) = encrypt_pdu(pdu, &key, &aad_prefix);
    let mut aad = aad_prefix.to_vec();
    aad.extend_from_slice(&nonce);

    let decrypted = decrypt_pdu(&encrypted_pdu, &key, &nonce, &auth_tag, &aad).unwrap();
    assert_eq!(decrypted, pdu);
    assert_ne!(encrypted_pdu, pdu);

    let mut tampered_aad = aad;
    tampered_aad[4] ^= 0x01;
    assert!(decrypt_pdu(&encrypted_pdu, &key, &nonce, &auth_tag, &tampered_aad).is_err());
}

#[test]
fn encryption_is_aes_256_gcm() {
    // Key, nonce and message all zero: the ciphertext is the first block of
    // the keystream.
    let (encrypted, _tag) = encrypt_pdu_with_nonce(&[0; 16], &[0; 32], &[], &[0; 12]);
    assert_eq!(
        encrypted,
        vec![
            0xce, 0xa7, 0x40, 0x3d, 0x4d, 0x60, 0x6b, 0x6e, 0x07, 0x4e, 0xc5, 0xd3, 0xba, 0xf3,
            0x9d, 0x18,
        ]
    );
}

#[test]
fn nonces_differ_from_call_to_call() {
    let first = encrypt_pdu(b"pdu", &[1; 32], b"aad");
    let second = encrypt_pdu(b"pdu", &[1; 32], b"aad");
    assert_ne!(first.1, second.1);
}

#[test]
fn rate_window_quota_rejects_the_complete_request() {
    let resources = vec![ResourceRequest {
        bucket_name: "bucket".to_string(),
        window_size_ms: 1_025,
        rate_limit: 100,
        tokens_requested: 1,
    }];
    let error = CoreClient::validate_rate_windows_against_quota(&resources, Some(1_024))
        .expect_err("window above credential limit must fail");
    assert!(error.to_string().contains("rate_window_size_ms_max"));
    assert_eq!(
        error.to_string(),
        "protocol error: Resource 'bucket' window_size_ms 1025 exceeds rate_window_size_ms_max 1024"
    );
    assert!(CoreClient::validate_rate_windows_against_quota(&resources, Some(1_025)).is_ok());
    assert!(CoreClient::validate_rate_windows_against_quota(&resources, None).is_ok());
}

#[test]
fn latency_report_uses_32_byte_service_blocks() {
    let reports = vec![ServiceLatencyReport {
        latency_tracker_name: "service".to_string(),
        observed_latency: 85,
        ttl_ms: 1_000,
        max_samples: 32,
        min_sample_threshold: 4,
    }];

    let body = CoreClient::build_latency_report_body(&reports);
    assert_eq!(body.len(), 4 + SERVICE_LATENCY_BLOCK_WIRE_LEN);

    let pdu = CoreClient::build_pdu(PDU_LATENCY_REPORT, body.as_ref()).unwrap();
    assert_eq!(pdu.len(), 44);
    assert_eq!(u16::from_le_bytes([pdu[0], pdu[1]]), PDU_LATENCY_REPORT);
    assert_eq!(u16::from_le_bytes([pdu[2], pdu[3]]), 44);
    assert_eq!(u16::from_le_bytes([pdu[8], pdu[9]]), 1);
    assert_eq!(u32::from_le_bytes([pdu[40], pdu[41], pdu[42], pdu[43]]), 85);
}

#[test]
fn blocks_are_read_as_they_were_written() {
    let header = TenantHeader {
        tlv_type: TLV_TENANT,
        tlv_size: 40,
        key_id: 0x0102_0304_0506_0708,
        unique_id: [9; 16],
        time_stamp: u64::MAX - 1,
        steering_feedback: 1,
        tenant_mgmt_flag: 2,
        padding: [3, 4],
    };
    let mut buffer = [0xeeu8; 41];
    header.write_to_buffer(&mut buffer);
    assert_eq!(&buffer[..4], &[0x52, 0x4c, 40, 0]);
    assert_eq!(&buffer[4..12], &[8, 7, 6, 5, 4, 3, 2, 1]);
    assert_eq!(&buffer[36..], &[1, 2, 3, 4, 0xee]);
    let read = TenantHeader::read_from_buffer(&buffer).unwrap();
    assert_eq!(format!("{read:?}"), format!("{header:?}"));
    assert_eq!(
        TenantHeader::read_from_buffer(&buffer[..39]).unwrap_err(),
        "Buffer too small for TenantHeader"
    );

    let guard = GuardBlock {
        latency_tracker_id: [1; 16],
        ttl_ms: 2,
        max_samples: 3,
        min_sample_threshold: 4,
        latency_threshold: 5,
        current_latency: 0x0102_0304,
    };
    let mut buffer = [0u8; 36];
    guard.write_to_buffer(&mut buffer);
    assert_eq!(&buffer[32..], &[4, 3, 2, 1]);
    let read = GuardBlock::read_from_buffer(&buffer).unwrap();
    assert_eq!(format!("{read:?}"), format!("{guard:?}"));
    assert!(GuardBlock::read_from_buffer(&buffer[..35]).is_err());

    let resource = ResourceBlock {
        bucket_id: [7; 16],
        window_size_ms: 1,
        rate_limit: 2,
        tokens_requested: 0x0304,
        padding: 5,
    };
    let mut buffer = [0u8; 28];
    resource.write_to_buffer(&mut buffer);
    assert_eq!(&buffer[24..], &[4, 3, 5, 0]);
    let read = ResourceBlock::read_from_buffer(&buffer).unwrap();
    assert_eq!(format!("{read:?}"), format!("{resource:?}"));
    assert!(ResourceBlock::read_from_buffer(&buffer[..27]).is_err());

    let latency = ServiceLatencyBlock {
        latency_tracker_id: [8; 16],
        ttl_ms: 1,
        max_samples: 2,
        min_sample_threshold: 3,
        observed_latency: 4,
    };
    let mut buffer = [0u8; 32];
    latency.write_to_buffer(&mut buffer);
    assert_eq!(&buffer[12..20], &[8, 8, 8, 8, 1, 0, 0, 0]);
    assert_eq!(&buffer[28..], &[4, 0, 0, 0]);
}

fn response_pdu(guards: &[GuardBlock], resources: &[ResourceBlock]) -> Vec<u8> {
    let mut body = Vec::new();
    body.extend_from_slice(&(guards.len() as u16).to_le_bytes());
    body.extend_from_slice(&(resources.len() as u16).to_le_bytes());
    for guard in guards {
        body.extend_from_slice(&guard.to_bytes());
    }
    for resource in resources {
        body.extend_from_slice(&resource.to_bytes());
    }
    let mut pdu = Vec::new();
    pdu.extend_from_slice(&PDU_RATE_RESPONSE.to_le_bytes());
    pdu.extend_from_slice(&((8 + body.len()) as u16).to_le_bytes());
    pdu.extend_from_slice(&[0u8; 4]);
    pdu.extend_from_slice(&body);
    pdu
}

fn guard_block(threshold: u32, current: u32) -> GuardBlock {
    GuardBlock {
        latency_tracker_id: [1; 16],
        ttl_ms: 0,
        max_samples: 0,
        min_sample_threshold: 0,
        latency_threshold: threshold,
        current_latency: current,
    }
}

fn resource_block(deficit: u16) -> ResourceBlock {
    ResourceBlock {
        bucket_id: [2; 16],
        window_size_ms: 0,
        rate_limit: 55,
        tokens_requested: deficit,
        padding: 0,
    }
}

fn header_bytes(server_id: u64, steering: u8) -> Vec<u8> {
    TenantHeader {
        tlv_type: TLV_TENANT,
        tlv_size: 40,
        key_id: server_id,
        unique_id: [5; 16],
        time_stamp: 0,
        steering_feedback: steering,
        tenant_mgmt_flag: 0,
        padding: [0, 0],
    }
    .to_bytes()
}

fn plain_response(server_id: u64, pdu: &[u8]) -> Vec<u8> {
    let mut packet = header_bytes(server_id, 1);
    packet.extend_from_slice(&TLV_AUTH_NONE.to_le_bytes());
    packet.extend_from_slice(&4u16.to_le_bytes());
    packet.extend_from_slice(pdu);
    packet
}

#[test]
fn parse_rate_response_ignores_trailing_tlvs() {
    let mut tenant = [0u8; 40];
    let tenant_header = TenantHeader {
        tlv_type: TLV_TENANT,
        tlv_size: 40,
        key_id: 42,
        unique_id: [0u8; 16],
        time_stamp: 0,
        steering_feedback: 1,
        tenant_mgmt_flag: 0,
        padding: [0, 0],
    };
    tenant_header.write_to_buffer(&mut tenant);

    let mut pdu_body = Vec::new();
    pdu_body.extend_from_slice(&0u16.to_le_bytes());
    pdu_body.extend_from_slice(&0u16.to_le_bytes());

    let label = b"x";
    let tlv_body_len = 2 + label.len();
    let padding = (4 - (tlv_body_len % 4)) % 4;
    let tlv_size = 4 + tlv_body_len + padding;
    pdu_body.extend_from_slice(&TLV_METRICS_LABEL.to_le_bytes());
    pdu_body.extend_from_slice(&(tlv_size as u16).to_le_bytes());
    pdu_body.extend_from_slice(&(label.len() as u16).to_le_bytes());
    pdu_body.extend_from_slice(label);
    if padding > 0 {
        pdu_body.extend_from_slice(&[0u8; 4][..padding]);
    }

    let pdu_size = 8 + pdu_body.len();
    let mut pdu = Vec::new();
    pdu.extend_from_slice(&PDU_RATE_RESPONSE.to_le_bytes());
    pdu.extend_from_slice(&(pdu_size as u16).to_le_bytes());
    pdu.extend_from_slice(&[0u8; 4]);
    pdu.extend_from_slice(&pdu_body);

    let mut packet = Vec::new();
    packet.extend_from_slice(&tenant);
    packet.extend_from_slice(&TLV_AUTH_NONE.to_le_bytes());
    packet.extend_from_slice(&4u16.to_le_bytes());
    packet.extend_from_slice(&pdu);

    let parsed = CoreClient::parse_rate_response_with_auth(
        &packet,
        &AuthMethod::Unauthenticated,
        None,
        None,
    )
    .expect("parse");
    assert!(parsed.success);
    assert_eq!(parsed.guard_results.len(), 0);
    assert_eq!(parsed.resource_results.len(), 0);
    assert_eq!(parsed.server_id, 42);
}

#[test]
fn success_needs_every_guard_and_every_token() {
    let outcome = |guards: &[GuardBlock], resources: &[ResourceBlock]| {
        CoreClient::parse_rate_response_pdu(&response_pdu(guards, resources), 3, true)
            .expect("parse")
    };
    let granted = outcome(&[guard_block(10, 9)], &[resource_block(0), resource_block(0)]);
    assert!(granted.success);
    assert_eq!(granted.guard_results[0].current_latency_ms, 9);
    assert_eq!(granted.guard_results[0].latency_tracker_id, [1; 16]);
    assert_eq!(granted.resource_results[1].actual_rate, 55);
    assert_eq!(granted.resource_results[1].bucket_id, [2; 16]);
    assert!(granted.steering_feedback);
    let at_threshold = outcome(&[guard_block(10, 9), guard_block(10, 10)], &[]);
    assert!(!at_threshold.success);
    assert!(at_threshold.guard_results[0].passed);
    assert!(!at_threshold.guard_results[1].passed);
    let short = outcome(&[guard_block(10, 9)], &[resource_block(0), resource_block(2)]);
    assert!(!short.success);
    assert_eq!(short.resource_results[1].tokens_deficit, 2);
}

fn said(outcome: Result<ratelimitly::protocol::RateLimitResult, CoreError>) -> String {
    match outcome {
        Ok(_) => panic!("accepted"),
        Err(error) => error.to_string(),
    }
}

#[test]
fn malformed_pdus_are_refused_with_their_reason() {
    let parse = |pdu: &[u8]| said(CoreClient::parse_rate_response_pdu(pdu, 1, false));
    let pdu = response_pdu(&[guard_block(1, 0)], &[resource_block(0)]);
    assert_eq!(parse(&pdu[..7]), "protocol error: Buffer too small for PDU header");
    let mut other = pdu.clone();
    other[..2].copy_from_slice(&PDU_RATE_REQUEST.to_le_bytes());
    assert_eq!(parse(&other), "protocol error: Unexpected PDU type: 0x5452");
    let sized = |size: u16| {
        let mut pdu = pdu.clone();
        pdu[2..4].copy_from_slice(&size.to_le_bytes());
        parse(&pdu)
    };
    assert_eq!(sized(7), "protocol error: Invalid PDU size");
    assert_eq!(sized(77), "protocol error: Incomplete PDU data");
    assert_eq!(sized(11), "protocol error: Buffer too small for counts");
    assert_eq!(sized(47), "protocol error: Buffer too small for GuardBlock");
    assert_eq!(sized(75), "protocol error: Buffer too small for ResourceBlock");
}

#[test]
fn malformed_packets_are_refused_with_their_reason() {
    let parse = |data: &[u8], method: &AuthMethod| {
        said(CoreClient::parse_rate_response_with_auth(
            data, method, None, None,
        ))
    };
    let none = AuthMethod::Unauthenticated;
    let cookie = AuthMethod::Cookie([6; 32]);
    let aes = AuthMethod::AesGcm([7; 32]);
    let good = plain_response(1, &response_pdu(&[], &[]));
    assert_eq!(
        parse(&good[..3], &none),
        "protocol error: Buffer too small for Tenant TLV header"
    );
    let mut typed = good.clone();
    typed[0] = 0;
    assert_eq!(
        parse(&typed, &none),
        "protocol error: Expected Tenant TLV type 0x4c52, got 0x4c00"
    );
    let sized = |size: u8| {
        let mut data = good.clone();
        data[2] = size;
        parse(&data, &none)
    };
    assert_eq!(sized(39), "protocol error: Tenant TLV too small");
    assert_eq!(sized(200), "protocol error: Buffer too small for Tenant TLV body");
    assert_eq!(
        parse(&good[..43], &none),
        "protocol error: Buffer too small for Auth TLV header"
    );
    let auth_sized = |size: u8| {
        let mut data = good.clone();
        data[42] = size;
        parse(&data, &none)
    };
    assert_eq!(auth_sized(3), "protocol error: Invalid Auth TLV size");
    assert_eq!(auth_sized(200), "protocol error: Buffer too small for Auth TLV body");
    assert_eq!(auth_sized(5), "protocol error: Invalid size for AUTH_NONE TLV: 5");
    assert_eq!(
        parse(&good, &cookie),
        "authentication error: Auth type mismatch: expected 0x4143, got 0x414e"
    );
    let typed = |tlv_type: u16, size: u16| {
        let mut data = header_bytes(1, 1);
        data.extend_from_slice(&tlv_type.to_le_bytes());
        data.extend_from_slice(&size.to_le_bytes());
        data.extend_from_slice(&[6; 60]);
        data
    };
    assert_eq!(
        parse(&typed(TLV_AUTH_COOKIE, 37), &cookie),
        "protocol error: Invalid size for AUTH_COOKIE TLV: 37"
    );
    assert_eq!(
        parse(&typed(TLV_AUTH_COOKIE, 36), &cookie),
        "authentication error: Missing cookie hash cache"
    );
    assert_eq!(
        said(CoreClient::parse_rate_response_with_auth(
            &typed(TLV_AUTH_COOKIE, 36),
            &cookie,
            Some([5; 32]),
            None,
        )),
        "authentication error: Cookie auth mismatch"
    );
    assert_eq!(
        parse(&typed(TLV_AUTH_AES, 33), &aes),
        "protocol error: Invalid size for AUTH_AES TLV: 33"
    );
    assert_eq!(
        parse(&typed(TLV_AUTH_AES, 32), &aes),
        "authentication error: Missing AES key cache"
    );
    assert_eq!(
        said(CoreClient::parse_rate_response_with_auth(
            &typed(TLV_AUTH_AES, 32),
            &aes,
            None,
            Some([7; 32]),
        )),
        "protocol error: AES decryption failed"
    );
}

#[test]
fn every_method_reads_back_what_it_wrote() {
    let pdu = response_pdu(&[guard_block(10, 3)], &[resource_block(0)]);
    for (method, secret) in [("none", vec![]), ("cookie", vec![3; 32]), ("aes", vec![4; 32])] {
        let client = client_with(method, &secret);
        let core = client.protocol_core();
        let packet = core
            .build_packet(&pdu, &[8; 16], 123, &[9; 12])
            .expect("packet");
        let result = core.parse_rate_response(&packet).expect("parse");
        assert!(result.success, "{method}");
        assert_eq!(result.server_id, 77);
        assert_eq!(CoreClient::peek_server_id(&packet), Some(77));
        assert_eq!(CoreClient::peek_request_id(&packet), Some([8; 16]));

        let mut appended = BytesMut::from(&packet[..40]);
        core.append_auth_tlv(&mut appended, &pdu);
        assert_eq!(appended.len(), packet.len());
        assert!(core.parse_rate_response(&appended).expect("parse").success);
        if method == "aes" {
            let mut tampered = packet.to_vec();
            tampered[30] ^= 1;
            assert!(core.parse_rate_response(&tampered).is_err());
        }
    }
}

#[test]
fn headers_go_to_the_front_of_the_packet() {
    let client = client_with("none", &[]);
    let header = client.protocol_core().build_tenant_header(&[1; 16], 0x0102);
    let mut packet = BytesMut::from(&[0xee, 0xee][..]);
    CoreClient::write_tenant_header(&mut packet, &header);
    assert_eq!(packet.len(), 42);
    assert_eq!(&packet[..4], &[0x52, 0x4c, 40, 0]);
    assert_eq!(&packet[28..40], &[2, 1, 0, 0, 0, 0, 0, 0, 1, 0, 0, 0]);
    assert_eq!(&packet[40..], &[0, 0]);
}

#[test]
fn requests_have_exact_bytes() {
    let client = client_with("none", &[]);
    let resource = Resource::new("checkout", Duration::from_secs(1), 100).unwrap();
    let tracker = LatencyTracker::builder("inventory-backend")
        .sample_ttl(Duration::from_secs(10))
        .max_samples(100)
        .min_samples(5)
        .build()
        .unwrap();
    let request = client
        .request()
        .consume(&resource, 3)
        .and_then(|request| request.guard(&tracker, Duration::from_millis(250)))
        .and_then(|request| request.metrics_label("api"));
    let request = match request {
        Ok(request) => request,
        Err(error) => panic!("{error:?}"),
    };
    let outgoing = match request.prepare(0x1122) {
        Ok(outgoing) => outgoing,
        Err(error) => panic!("{error:?}"),
    };
    let packet = &outgoing.packet[..];
    assert_eq!(&packet[12..28], &outgoing.request_id);
    assert_eq!(outgoing.request_id[6] >> 4, 4);
    assert_eq!(outgoing.request_id[8] >> 6, 2);
    assert_eq!(&packet[40..44], &[0x4e, 0x41, 4, 0]);
    let pdu = &packet[44..];
    assert_eq!(le16(pdu, 0), PDU_RATE_REQUEST);
    assert_eq!(le16(pdu, 2) as usize, pdu.len());
    assert_eq!(le32(pdu, 4), 60);
    assert_eq!(&pdu[8..12], &[1, 0, 1, 0]);
    assert_eq!(&pdu[12..28], tracker.id().as_bytes());
    assert_eq!(
        [le32(pdu, 28), le32(pdu, 32), le32(pdu, 36), le32(pdu, 40), le32(pdu, 44)],
        [10_000, 100, 5, 250, 0]
    );
    assert_eq!(&pdu[48..64], resource.id().as_bytes());
    assert_eq!([le32(pdu, 64), le32(pdu, 68)], [1_000, 100]);
    assert_eq!(&pdu[72..76], &[3, 0, 0, 0]);
    assert_eq!(&pdu[76..], &[0x4d, 0x4c, 12, 0, 3, 0, b'a', b'p', b'i', 0, 0, 0]);
    let again = match request.prepare(0x1122) {
        Ok(outgoing) => outgoing,
        Err(error) => panic!("{error:?}"),
    };
    assert_ne!(again.request_id, outgoing.request_id);
}

#[test]
fn packets_stay_within_their_bound() {
    let client = client_with("cookie", &[3; 32]);
    let core = client.protocol_core();
    assert_eq!(core.build_packet(&[0; 1_124], &[0; 16], 0, &[0; 12]).unwrap().len(), 1_200);
    let error = core.build_packet(&[0; 1_125], &[0; 16], 0, &[0; 12]).unwrap_err();
    assert_eq!(
        error.to_string(),
        "protocol error: Packet too large for MTU target"
    );
    let error = CoreClient::build_rate_request_pdu(1, &[0; 65_528]).unwrap_err();
    assert_eq!(error.to_string(), "protocol error: PDU too large");
    assert_eq!(CoreClient::build_pdu(1, &[0; 65_527]).unwrap().len(), 65_535);
}

#[test]
fn reports_carry_the_observation() {
    let client = client_with("aes", &[4; 32]);
    let tracker = LatencyTracker::builder("inventory-backend")
        .sample_ttl(Duration::from_secs(10))
        .max_samples(100)
        .min_samples(5)
        .build()
        .unwrap();
    let report = Client::latency_report(&tracker, Duration::from_millis(18)).unwrap();
    assert_eq!(report.latency_tracker_name, "inventory-backend");
    assert_eq!(report.observed_latency, 18);
    let outgoing = match client.prepare_report(&tracker, Duration::from_millis(18), 5) {
        Ok(outgoing) => outgoing,
        Err(error) => panic!("{error:?}"),
    };
    let packet = &outgoing.packet[..];
    assert_eq!(packet.len(), 40 + 32 + 8 + 36);
    assert_eq!(CoreClient::peek_request_id(packet), Some(outgoing.request_id));
    let pdu = CoreClient::parse_auth_tlv(packet, 40, &AuthMethod::AesGcm([4; 32]), None, Some([4; 32]))
        .unwrap_or_else(|error| panic!("{error:?}"));
    let pdu = pdu.as_slice();
    assert_eq!(le16(pdu, 0), PDU_LATENCY_REPORT);
    assert_eq!(&pdu[8..12], &[1, 0, 0, 0]);
    assert_eq!(&pdu[12..28], tracker.id().as_bytes());
    assert_eq!(le32(pdu, 40), 18);
    assert!(matches!(
        client.prepare_report(&tracker, Duration::ZERO, 5),
        Err(Error::InvalidConfiguration(_))
    ));
}

#[test]
fn packets_of_any_bytes_are_read_or_refused() {
    let cookie = [0x11_u8; 32];
    let aes = [0x22_u8; 32];
    let mut state = 1u32;
    for len in 0..512usize {
        let mut packet: Vec<u8> = (0..len)
            .map(|_| {
                state = state.wrapping_mul(1_103_515_245).wrapping_add(12_345);
                (state >> 16) as u8
            })
            .collect();
        if len >= 4 {
            packet[..4].copy_from_slice(&[0x52, 0x4c, 40, 0]);
        }
        for (method, cookie, key) in [
            (AuthMethod::Unauthenticated, None, None),
            (AuthMethod::Cookie(cookie), Some(cookie), None),
            (AuthMethod::AesGcm(aes), None, Some(aes)),
        ] {
            let _ = CoreClient::parse_rate_response_with_auth(&packet, &method, cookie, key);
        }
    }
}

#[test]
fn sealed_bytes_are_split_and_joined() {
    let sealed: Vec<u8> = (0..20).collect();
    let (encrypted, tag) = split_sealed(&sealed);
    assert_eq!(encrypted, [0, 1, 2, 3]);
    assert_eq!(tag, [4, 5, 6, 7, 8, 9, 10, 11, 12, 13, 14, 15, 16, 17, 18, 19]);
    assert_eq!(joined_bytes(&encrypted, &tag), sealed);
    assert_eq!(joined_bytes(&[], &[7]), [7]);
}

#[test]
fn sealed_parts_are_found_behind_the_header() {
    let data: Vec<u8> = (0..40).collect();
    let sealed = SealedPdu::read(&data, 2);
    assert_eq!(sealed.nonce.to_vec(), data[6..18].to_vec());
    assert_eq!(sealed.auth_tag.to_vec(), data[18..34].to_vec());
    assert_eq!(sealed.aad, &data[..18]);
    assert_eq!(sealed.encrypted, &data[34..]);

    let mut packet = BytesMut::new();
    packet.extend_from_slice(&data[..6]);
    CoreClient::append_sealed(&mut packet, &sealed.nonce, &sealed.auth_tag, sealed.encrypted);
    assert_eq!(&packet[..], &data[..]);
}

#[test]
fn decrypted_pdus_are_handed_out() {
    match CoreClient::pdu_of_opened(Ok(vec![1, 2, 3])) {
        Ok(pdu) => assert_eq!(pdu.as_slice(), &[1, 2, 3]),
        Err(_) => panic!("refused"),
    }
    match CoreClient::pdu_of_opened(Err(NotAuthentic)) {
        Err(CoreError::Protocol(message)) => assert_eq!(message, "AES decryption failed"),
        _ => panic!("accepted"),
    }
}

#[test]
fn authentication_beyond_the_packet_is_refused() {
    for pos in [1, 4, 5, usize::MAX] {
        match CoreClient::parse_auth_tlv(
            &[0x4E, 0x41, 4, 0],
            pos,
            &AuthMethod::Unauthenticated,
            None,
            None,
        ) {
            Err(CoreError::Protocol(message)) => {
                assert_eq!(message, "Buffer too small for Auth TLV header");
            }
            _ => panic!("accepted"),
        }
    }
}

#[test]
fn labels_only_add_their_tlv() {
    let resources = vec![ResourceRequest {
        bucket_name: "bucket".to_string(),
        window_size_ms: 1_000,
        rate_limit: 100,
        tokens_requested: 1,
    }];
    let guards = vec![LatencyGuard {
        latency_tracker_name: "service".to_string(),
        threshold_ms: 50,
        ttl_ms: 1_000,
        max_samples: 32,
        min_sample_threshold: 4,
    }];
    let body = |label: Option<&str>| match CoreClient::build_rate_request_body(
        &resources, &guards, label,
    ) {
        Ok(body) => body,
        Err(_) => panic!("refused"),
    };
    let plain = body(None);
    let labelled = body(Some("api"));
    let mut tlv = BytesMut::new();
    CoreClient::append_metrics_label_tlv(&mut tlv, "api").expect("tlv");
    assert_eq!(plain.len(), 4 + 36 + 28);
    assert_eq!(&labelled[..plain.len()], &plain[..]);
    assert_eq!(&labelled[plain.len()..], &tlv[..]);
}

#[test]
fn guards_and_reports_of_a_tracker_share_its_identifier() {
    let tracker = LatencyTracker::builder("inventory")
        .sample_ttl(Duration::from_secs(10))
        .max_samples(100)
        .min_samples(5)
        .build()
        .expect("tracker");
    let client = client_with("none", &[]);
    let packet = |threshold: u64| {
        let request = client
            .request()
            .guard(&tracker, Duration::from_millis(threshold))
            .expect("guard");
        request.prepare(0).expect("packet").packet
    };
    let report = client
        .prepare_report(&tracker, Duration::from_millis(18), 0)
        .expect("report")
        .packet;
    let id = tracker.id();
    // Header, authentication, PDU header and counts come first.
    let at = 40 + 4 + 8 + 4;
    assert_eq!(&packet(50)[at..at + 16], id.as_bytes());
    assert_eq!(&packet(100)[at..at + 16], id.as_bytes());
    assert_eq!(&report[at..at + 16], id.as_bytes());
}

#[test]
fn no_reports_make_no_packet() {
    let client = client_with("none", &[]);
    let core = client.protocol_core();
    assert!(core.prepare_latency_report(&[], 0).is_none());

    let report = ServiceLatencyReport {
        latency_tracker_name: "service".to_string(),
        observed_latency: 85,
        ttl_ms: 1_000,
        max_samples: 32,
        min_sample_threshold: 4,
    };
    match core.prepare_latency_report(&[report.clone()], 0) {
        Some(Ok(outgoing)) => {
            assert_eq!(outgoing.packet.len(), 40 + 4 + 44);
            assert_eq!(le16(&outgoing.packet, 44), PDU_LATENCY_REPORT);
            assert_eq!(le32(&outgoing.packet, 40 + 4 + 40), 85);
        }
        _ => panic!("refused"),
    }
    let many = vec![report; 36];
    match core.prepare_latency_report(&many, 0) {
        Some(Err(CoreError::Protocol(message))) => {
            assert_eq!(message, "Packet too large for MTU target");
        }
        _ => panic!("accepted"),
    }
}
