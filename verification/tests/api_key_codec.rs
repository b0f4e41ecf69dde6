use ratelimitly::api_key_codec::{
    bech32_decode, bech32_encode, char_to_value, convert_bits, create_checksum, decode_api_key,
    hrp_expand, limits_from_payload, polymod, value_to_char, verify_checksum, ApiKeyLimits,
    DecodeError, DecodedApiKey, FORMAT_VERSION,
};

fn decoded(encoded: &str) -> DecodedApiKey {
    match decode_api_key(encoded) {
        Ok(key) => key,
        Err(error) => panic!("refused {encoded}: {error:?}"),
    }
}

fn refused(encoded: &str) -> DecodeError {
    match decode_api_key(encoded) {
        Ok(_) => panic!("accepted {encoded}"),
        Err(error) => error,
    }
}

#[test]
fn decodes_canonical_format_v1_default_key() {
    let decoded = decoded("rl-none1qyyqwps9qspsyq2sk8e0sfdp3ys");
    assert_eq!(decoded.format_version, 1);
    assert_eq!(decoded.key_id, 0x0102_0304_0506_0708);
    let limits = decoded.limits.unwrap();
    assert_eq!(limits.rate_buckets_max, 65_536);
    assert_eq!(limits.latency_services_max, 1_024);
    assert_eq!(limits.metrics_labels_max, 4_096);
    assert_eq!(limits.latency_buffer_size_max, 32);
    assert_eq!(limits.dedup_ttl_ms_max, 300);
    assert_eq!(limits.rate_window_size_ms_max, u32::MAX);
}

#[test]
fn rejects_unknown_versions_legacy_lengths_and_invalid_quota_codes() {
    for invalid in [
        "rl-aes1qqpqqqqqqqqqqqqzqgpqyqszqgpqyqszqgpqyqszqgpqyqszqgpqyqszqgpqyqszqghjmuhccp9vn9",
        "rl-aes1qgpqqqqqqqqqqqqzqgpqyqszqgpqyqszqgpqyqszqgpqyqszqgpqyqszqgpqyqszqghjmuhcchgqf0",
        "rl-aes1qyysqqqqqqqqqqqfpyysjzgfpyysjzgfpyysjzgfpyysjzgfpyysjzgfpyysjzgfpyqqqqqqurys6m",
        "rl-aes1qyysqqqqqqqqqqqfpyysjzgfpyysjzgfpyysjzgfpyysjzgfpyysjzgfpyysjzgfpyvsqzqqs45cew",
        "rl-aes1qvqqqqqqqqqqqqcrqvpsxqcrqvpsxqcrqvpsxqcrqvpsxqcrqvpsxqcrqvpsxqcrqqqqqqqqqqqqqqqqqqqqqqqqqqqqqqemrljn",
    ] {
        assert!(
            decode_api_key(invalid).is_err(),
            "accepted invalid API key: {invalid}"
        );
    }
}

fn encode_api_key(
    auth_method: &str,
    key_id: u64,
    auth_secret: &[u8],
    limits: ApiKeyLimits,
) -> String {
    let mut payload = Vec::new();
    payload.push(FORMAT_VERSION);
    payload.extend_from_slice(&key_id.to_le_bytes());
    match auth_method {
        "none" => {}
        "cookie" | "aes" => payload.extend_from_slice(auth_secret),
        other => panic!("unsupported auth method: {other}"),
    }
    let rate_exp = limits.rate_buckets_max.trailing_zeros();
    let latency_exp = limits.latency_services_max.trailing_zeros();
    let labels_exp = limits.metrics_labels_max.trailing_zeros();
    let buffer_exp = limits.latency_buffer_size_max.trailing_zeros();
    let window_exp = if limits.rate_window_size_ms_max == u32::MAX {
        31
    } else {
        limits.rate_window_size_ms_max.trailing_zeros()
    };
    let quota_word = rate_exp
        | (latency_exp << 5)
        | (labels_exp << 10)
        | (buffer_exp << 15)
        | ((limits.dedup_ttl_ms_max / 10) << 19)
        | (window_exp << 27);
    payload.extend_from_slice(&quota_word.to_le_bytes());
    bech32_encode(&format!("rl-{auth_method}"), &payload).expect("encode API key")
}

fn sample_limits() -> ApiKeyLimits {
    ApiKeyLimits {
        rate_buckets_max: 65_536,
        latency_services_max: 1_024,
        metrics_labels_max: 4_096,
        latency_buffer_size_max: 64,
        dedup_ttl_ms_max: 300,
        rate_window_size_ms_max: u32::MAX,
    }
}

#[test]
fn decodes_none_key_with_limits() {
    let key = encode_api_key("none", 1, &[], sample_limits());
    let decoded = decoded(&key);
    assert_eq!(decoded.auth_method, "none");
    assert_eq!(decoded.key_id, 1);
    assert_eq!(decoded.auth_secret, Vec::<u8>::new());
    assert_eq!(decoded.limits, Some(sample_limits()));
}

#[test]
fn decodes_cookie_and_aes_keys() {
    let cookie = decoded(&encode_api_key("cookie", 2, &[2u8; 32], sample_limits()));
    assert_eq!(cookie.auth_method, "cookie");
    assert_eq!(cookie.key_id, 2);
    assert_eq!(cookie.auth_secret, vec![2u8; 32]);
    assert!(cookie.limits.is_some());

    let aes = decoded(&encode_api_key("aes", 3, &[3u8; 32], sample_limits()));
    assert_eq!(aes.auth_method, "aes");
    assert_eq!(aes.key_id, 3);
    assert_eq!(aes.auth_secret, vec![3u8; 32]);
    assert!(aes.limits.is_some());
}

#[test]
fn each_fault_in_the_text_has_its_error() {
    assert_eq!(refused(""), DecodeError::EmptyInput);
    assert_eq!(refused("rl none1qqqqqq"), DecodeError::NonPrintable);
    assert_eq!(refused("rl-é1qqqqqq"), DecodeError::NonPrintable);
    assert_eq!(refused("rl-None1qqqqqq"), DecodeError::MixedCase);
    assert_eq!(refused("not-a-ratelimitly-api-key"), DecodeError::MissingSeparator);
    assert_eq!(refused("1qqqqqq"), DecodeError::EmptyHrp);
    assert_eq!(refused("rl-none1qqqqq"), DecodeError::ChecksumTooShort);
    assert_eq!(refused("rl-none1qqbqqqiq"), DecodeError::InvalidCharset('b'));
    assert_eq!(
        refused("rl-none1qyyqwps9qspsyq2sk8e0sfdp3yq"),
        DecodeError::ChecksumFailed
    );
}

#[test]
fn each_fault_in_the_payload_has_its_error() {
    let encode = |hrp: &str, payload: &[u8]| bech32_encode(hrp, payload).expect("encode");
    assert_eq!(refused(&encode("xx-none", &[1; 13])), DecodeError::InvalidHrpPrefix);
    assert_eq!(
        refused(&encode("rl-other", &[1; 13])),
        DecodeError::UnsupportedAuthMethod("other".to_string())
    );
    assert_eq!(
        refused(&encode("rl-none", &[1; 12])),
        DecodeError::InvalidPayloadLength {
            auth_method: "none".to_string(),
            expected: 13,
            actual: 12,
        }
    );
    assert_eq!(
        refused(&encode("rl-aes", &[1; 46])),
        DecodeError::InvalidPayloadLength {
            auth_method: "aes".to_string(),
            expected: 45,
            actual: 46,
        }
    );
    assert_eq!(
        refused(&encode("rl-secret", &[1; 31])),
        DecodeError::InvalidPayloadLength {
            auth_method: "secret".to_string(),
            expected: 32,
            actual: 31,
        }
    );
    assert_eq!(
        refused(&encode("rl-none", &[2; 13])),
        DecodeError::UnsupportedFormatVersion(2)
    );
    let mut zero_quota = [0u8; 13];
    zero_quota[0] = FORMAT_VERSION;
    assert_eq!(refused(&encode("rl-none", &zero_quota)), DecodeError::InvalidPackedQuota);
}

#[test]
fn secret_keys_have_neither_identifier_nor_limits() {
    let key = decoded(&bech32_encode("RL-SECRET", &[7; 32]).expect("encode"));
    assert_eq!(key.hrp, "rl-secret");
    assert_eq!(key.auth_method, "secret");
    assert_eq!(key.format_version, 0);
    assert_eq!(key.key_id, 0);
    assert_eq!(key.auth_secret, vec![7; 32]);
    assert_eq!(key.limits, None);
}

#[test]
fn encoding_and_decoding_undo_each_other() {
    for len in 0..12usize {
        let payload: Vec<u8> = (0..len).map(|i| (i * 37 + 5) as u8).collect();
        let text = bech32_encode("Some1Prefix", &payload).expect("encode");
        assert_eq!(
            bech32_decode(&text),
            Ok(("some1prefix".to_string(), payload.clone()))
        );
        let (hrp, bytes) = bech32_decode(&text.to_uppercase()).expect("upper case decodes");
        assert_eq!(bech32_encode(&hrp, &bytes), Ok(text));
    }
    assert_eq!(bech32_encode("", &[]), Err(DecodeError::EmptyHrp));
    assert_eq!(bech32_encode("a b", &[]), Err(DecodeError::NonPrintable));
}

#[test]
fn known_bech32_texts_decode() {
    assert_eq!(bech32_decode("A12UEL5L"), Ok(("a".to_string(), Vec::new())));
    assert_eq!(bech32_encode("a", &[]), Ok("a12uel5l".to_string()));
}

#[test]
fn symbols_and_values_match() {
    for v in 0..32u8 {
        let symbol = value_to_char(v).expect("a symbol");
        assert_eq!(char_to_value(symbol), Some(v));
    }
    assert_eq!(value_to_char(32), None);
    assert_eq!(char_to_value('b'), None);
    assert_eq!(char_to_value('q'), Some(0));
    assert_eq!(char_to_value('l'), Some(31));
}

#[test]
fn checksum_parts_have_exact_values() {
    assert_eq!(hrp_expand("rl"), vec![3, 3, 0, 18, 12]);
    assert_eq!(polymod(&[]), 1);
    assert_eq!(polymod(&[3]), (1 << 5) ^ 3);
    let checksum = create_checksum("a", &[]);
    assert_eq!(checksum, vec![10, 28, 25, 31, 20, 31]);
    assert!(verify_checksum("a", &checksum));
    assert!(!verify_checksum("b", &checksum));
}

#[test]
fn regrouping_pads_and_checks_padding() {
    assert_eq!(convert_bits(&[0xff], 8, 5, true), Ok(vec![31, 28]));
    assert_eq!(convert_bits(&[31, 28], 5, 8, false), Ok(vec![0xff]));
    assert_eq!(convert_bits(&[31, 29], 5, 8, false), Err(DecodeError::InvalidPadding));
    assert_eq!(convert_bits(&[31], 5, 8, false), Err(DecodeError::InvalidPadding));
    assert_eq!(convert_bits(&[32], 5, 8, true), Err(DecodeError::InvalidPadding));
}

#[test]
fn quota_words_are_unpacked_field_by_field() {
    let word: u32 = 3 | (4 << 5) | (31 << 10) | (15 << 15) | (200 << 19) | (10 << 27);
    let mut payload = vec![0xaa; 2];
    payload.extend_from_slice(&word.to_le_bytes());
    assert_eq!(
        limits_from_payload(&payload, 2),
        Ok(ApiKeyLimits {
            rate_buckets_max: 8,
            latency_services_max: 16,
            metrics_labels_max: 0x8000_0000,
            latency_buffer_size_max: 0x8000,
            dedup_ttl_ms_max: 2_000,
            rate_window_size_ms_max: 1_024,
        })
    );
    for bad in [25 | (1 << 19), (25 << 5) | (1 << 19), 0u32, 201 << 19] {
        assert_eq!(
            limits_from_payload(&bad.to_le_bytes(), 0),
            Err(DecodeError::InvalidPackedQuota)
        );
    }
}

#[test]
fn api_key_text_of_any_bytes_is_read_or_refused() {
    for seed in 0..512u32 {
        let mut state = seed.wrapping_mul(2_654_435_761).wrapping_add(1);
        let text: String = (0..(seed % 64))
            .map(|_| {
                state = state.wrapping_mul(1_103_515_245).wrapping_add(12_345);
                char::from_u32(state >> 20 & 0x7ff).unwrap_or('1')
            })
            .collect();
        let _ = decode_api_key(&text);
    }
}
