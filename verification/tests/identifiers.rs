use ratelimitly::protocol::{content_preimage_bytes, id_of_digest};
use ratelimitly::text::{decimal, parse_decimal, prefixed_hex, write_hex};
use ratelimitly::{
    derive_bucket_id, derive_bucket_id_bytes, derive_latency_tracker_id,
    derive_latency_tracker_id_bytes,
};

fn bytes_to_hex(bytes: &[u8]) -> String {
    write_hex(bytes)
}

#[test]
fn canonical_bucket_id_vectors_match_the_protocol() {
    assert_eq!(
        bytes_to_hex(&derive_bucket_id("checkout", 1_000, 100)),
        "f5cf3ad8b8406854b596ba3614f16eff"
    );
    assert_eq!(
        bytes_to_hex(&derive_bucket_id("café", 60_000, 25)),
        "732b120606917c683e37433fa00a60dc"
    );
    assert_eq!(
        bytes_to_hex(&derive_bucket_id_bytes(
            b"binary\0bucket",
            u32::MAX,
            u32::MAX,
        )),
        "f57a48f69aa8c7a16fc73499ae8d07fa"
    );
}

#[test]
fn canonical_latency_tracker_id_vectors_match_the_protocol() {
    assert_eq!(
        bytes_to_hex(&derive_latency_tracker_id(
            "inventory-backend",
            10_000,
            100,
            5,
        )),
        "04283c08fe9f735566898b6982eac6c7"
    );
    assert_eq!(
        bytes_to_hex(&derive_latency_tracker_id("café", 60_000, 200, 3)),
        "8dece110edb102594ddde5bf4805af6b"
    );
    assert_eq!(
        bytes_to_hex(&derive_latency_tracker_id_bytes(
            b"binary\0tracker",
            u32::MAX,
            u32::MAX,
            u32::MAX,
        )),
        "d7f118ffa4eebc99fdfe8b221f37a1f2"
    );
}

#[test]
fn every_part_of_a_definition_changes_the_identifier() {
    let base = derive_latency_tracker_id("inventory", 10_000, 100, 5);
    assert_eq!(base, derive_latency_tracker_id("inventory", 10_000, 100, 5));
    assert_ne!(base, derive_latency_tracker_id("Inventory", 10_000, 100, 5));
    assert_ne!(base, derive_latency_tracker_id("inventory", 10_001, 100, 5));
    assert_ne!(base, derive_latency_tracker_id("inventory", 10_000, 101, 5));
    assert_ne!(base, derive_latency_tracker_id("inventory", 10_000, 100, 6));
    let bucket = derive_bucket_id("checkout", 1_000, 100);
    assert_ne!(bucket, derive_bucket_id("checkouT", 1_000, 100));
    assert_ne!(bucket, derive_bucket_id("checkout", 1_001, 100));
    assert_ne!(bucket, derive_bucket_id("checkout", 1_000, 101));
}

#[test]
fn numerals_have_their_usual_form() {
    assert_eq!(decimal(0), "0");
    assert_eq!(decimal(u64::MAX), "18446744073709551615");
    assert_eq!(prefixed_hex(0x4c52), "0x4c52");
    assert_eq!(prefixed_hex(0), "0x0");
    assert_eq!(write_hex(&[0, 0x0a, 0xff]), "000aff");
    assert_eq!(parse_decimal(b"18446744073709551615"), Some(u64::MAX));
    assert_eq!(parse_decimal(b"18446744073709551616"), None);
    assert_eq!(parse_decimal(b"007"), Some(7));
}

#[test]
fn definitions_are_hashed_from_domain_length_name_and_fields() {
    let preimage = content_preimage_bytes(b"d\0", b"ab", &[1, 0x0203_0405]);
    assert_eq!(
        preimage,
        [b'd', 0, 2, 0, 0, 0, b'a', b'b', 1, 0, 0, 0, 5, 4, 3, 2]
    );
    // The length keeps a name and the fields behind it apart.
    assert_ne!(
        content_preimage_bytes(b"d", b"a\x01\0\0\0", &[]),
        content_preimage_bytes(b"d", b"a", &[1])
    );
    let mut digest = [0u8; 32];
    for (i, byte) in digest.iter_mut().enumerate() {
        *byte = i as u8;
    }
    assert_eq!(
        id_of_digest(&digest),
        [0, 1, 2, 3, 4, 5, 6, 7, 8, 9, 10, 11, 12, 13, 14, 15]
    );
}
