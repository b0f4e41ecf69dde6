//! The wire protocol: content-defined identifiers, encryption of protocol data
//! units (PDUs), the fixed blocks of requests and responses.

use vstd::prelude::*;
use vstd::slice::slice_subrange;
use vstd::utf8;

use crate::crypto;
use crate::wire;

verus! {

/// What separates rate-counter identifiers from all others.
pub const RESOURCE_ID_DOMAIN: &'static str = "ratelimitly.resource.v1\0";

/// What separates latency-tracker identifiers from all others.
pub const LATENCY_TRACKER_ID_DOMAIN: &'static str = "ratelimitly.latency-tracker.v1\0";

/// Numbers as little-endian words of four bytes, one after the other.
pub open spec fn words(fields: Seq<u32>) -> Seq<u8>
    decreases fields.len(),
{
    if fields.len() == 0 {
        Seq::<u8>::empty()
    } else {
        words(fields.drop_last()) + wire::le_bytes(fields.last() as nat, 4)
    }
}

/// What a definition is hashed from: the domain, the length of the name, the
/// name, the numeric fields.
pub open spec fn content_preimage(domain: Seq<u8>, name: Seq<u8>, fields: Seq<u32>) -> Seq<u8> {
    domain + wire::le_bytes(name.len(), 4) + name + words(fields)
}

/// The identifier of a definition: the first half of the hash, which has 32
/// bytes.
pub open spec fn content_id(domain: Seq<u8>, name: Seq<u8>, fields: Seq<u32>) -> Seq<u8> {
    Seq::new(16, |i: int| crypto::blake2s256(content_preimage(domain, name, fields))[i])
}

/// The identifier of the rate counter with this definition.
pub open spec fn bucket_id(name: Seq<u8>, window_size_ms: u32, rate_limit: u32) -> Seq<u8> {
    content_id(
        utf8::encode_utf8(RESOURCE_ID_DOMAIN@),
        name,
        seq![window_size_ms, rate_limit],
    )
}

/// The identifier of the latency tracker with this definition.
pub open spec fn latency_tracker_id(
    name: Seq<u8>,
    ttl_ms: u32,
    max_samples: u32,
    min_sample_threshold: u32,
) -> Seq<u8> {
    content_id(
        utf8::encode_utf8(LATENCY_TRACKER_ID_DOMAIN@),
        name,
        seq![ttl_ms, max_samples, min_sample_threshold],
    )
}

/// Puts together what a definition is hashed from.
pub fn content_preimage_bytes(domain: &[u8], name: &[u8], fields: &[u32]) -> (preimage: Vec<u8>)
    requires
        name@.len() <= u32::MAX,
    ensures
        preimage@ == content_preimage(domain@, name@, fields@),
{
    let name_len: u32 = name.len() as u32;
    let mut preimage: Vec<u8> = Vec::new();
    wire::append_bytes(&mut preimage, domain);
    wire::append_bytes(&mut preimage, &wire::u32_le(name_len));
    wire::append_bytes(&mut preimage, name);
    let ghost head = preimage@;
    let mut i: usize = 0;
    assert(words(fields@.take(0)) =~= Seq::<u8>::empty());
    while i < fields.len()
        invariant
            i <= fields@.len(),
            preimage@ =~= head + words(fields@.take(i as int)),
        decreases fields@.len() - i,
    {
        wire::append_bytes(&mut preimage, &wire::u32_le(fields[i]));
        assert(fields@.take(i + 1).drop_last() =~= fields@.take(i as int));
        i = i + 1;
    }
    assert(fields@.take(i as int) =~= fields@);
    assert(preimage@ =~= content_preimage(domain@, name@, fields@));
    preimage
}

/// The identifier that a hash stands for: its first half.
pub fn id_of_digest(digest: &[u8; 32]) -> (id: [u8; 16])
    ensures
        id@ == digest@.take(16),
{
    let id: [u8; 16] = wire::read_array::<16>(digest, 0);
    assert(id@ =~= digest@.take(16));
    id
}

/// Derives the identifier of a definition.
fn derive_content_id(domain: &[u8], name: &[u8], fields: &[u32]) -> (id: [u8; 16])
    requires
        name@.len() <= u32::MAX,
    ensures
        id@ == content_id(domain@, name@, fields@),
{
    let preimage: Vec<u8> = content_preimage_bytes(domain, name, fields);
    let id: [u8; 16] = id_of_digest(&crypto::hash_blake2s256(preimage.as_slice()));
    assert(id@ =~= content_id(domain@, name@, fields@));
    id
}

/// Derives the canonical 16-byte bucket ID from raw name bytes.
pub fn derive_bucket_id_bytes(bucket_name: &[u8], window_size_ms: u32, rate_limit: u32) -> (id: [u8;
    16])
    requires
        bucket_name@.len() <= u32::MAX,
    ensures
        id@ == bucket_id(bucket_name@, window_size_ms, rate_limit),
{
    derive_content_id(RESOURCE_ID_DOMAIN.as_bytes(), bucket_name, &[window_size_ms, rate_limit])
}

/// Derives the canonical 16-byte bucket ID from a UTF-8 string name.
pub fn derive_bucket_id(bucket_name: &str, window_size_ms: u32, rate_limit: u32) -> (id: [u8; 16])
    requires
        utf8::encode_utf8(bucket_name@).len() <= u32::MAX,
    ensures
        id@ == bucket_id(utf8::encode_utf8(bucket_name@), window_size_ms, rate_limit),
{
    derive_bucket_id_bytes(bucket_name.as_bytes(), window_size_ms, rate_limit)
}

/// Derives the canonical 16-byte latency-tracker ID from raw name bytes.
pub fn derive_latency_tracker_id_bytes(
    latency_tracker_name: &[u8],
    ttl_ms: u32,
    max_samples: u32,
    min_sample_threshold: u32,
) -> (id: [u8; 16])
    requires
        latency_tracker_name@.len() <= u32::MAX,
    ensures
        id@ == latency_tracker_id(latency_tracker_name@, ttl_ms, max_samples, min_sample_threshold),
{
    derive_content_id(
        LATENCY_TRACKER_ID_DOMAIN.as_bytes(),
        latency_tracker_name,
        &[ttl_ms, max_samples, min_sample_threshold],
    )
}

/// Derives the canonical 16-byte latency-tracker ID from a UTF-8 string name.
pub fn derive_latency_tracker_id(
    latency_tracker_name: &str,
    ttl_ms: u32,
    max_samples: u32,
    min_sample_threshold: u32,
) -> (id: [u8; 16])
    requires
        utf8::encode_utf8(latency_tracker_name@).len() <= u32::MAX,
    ensures
        id@ == latency_tracker_id(
            utf8::encode_utf8(latency_tracker_name@),
            ttl_ms,
            max_samples,
            min_sample_threshold,
        ),
{
    derive_latency_tracker_id_bytes(
        latency_tracker_name.as_bytes(),
        ttl_ms,
        max_samples,
        min_sample_threshold,
    )
}

/// Words are four bytes each.
proof fn lemma_words_len(fields: Seq<u32>)
    ensures
        words(fields).len() == 4 * fields.len(),
    decreases fields.len(),
{
    if fields.len() > 0 {
        lemma_words_len(fields.drop_last());
        wire::lemma_le_bytes_len(fields.last() as nat, 4);
    }
}

/// Equal words come from equal numbers.
proof fn lemma_words_injective(a: Seq<u32>, b: Seq<u32>)
    requires
        words(a) == words(b),
    ensures
        a == b,
    decreases a.len(),
{
    lemma_words_len(a);
    lemma_words_len(b);
    if a.len() > 0 {
        let (wa, wb) = (words(a), words(b));
        lemma_words_len(a.drop_last());
        lemma_words_len(b.drop_last());
        wire::lemma_le_bytes_len(a.last() as nat, 4);
        wire::lemma_le_bytes_len(b.last() as nat, 4);
        let n = wa.len() - 4;
        assert(wa.take(n) =~= words(a.drop_last()));
        assert(wb.take(n) =~= words(b.drop_last()));
        lemma_words_injective(a.drop_last(), b.drop_last());
        assert(wa.skip(n) =~= wire::le_bytes(a.last() as nat, 4));
        assert(wb.skip(n) =~= wire::le_bytes(b.last() as nat, 4));
        wire::lemma_byte_ranges();
        wire::lemma_le_bytes_injective(a.last() as nat, b.last() as nat, 4);
        assert(a =~= a.drop_last().push(a.last()));
        assert(b =~= b.drop_last().push(b.last()));
    }
    assert(a =~= b);
}

/// Within a domain, different names or different numbers are hashed from
/// different bytes.
pub proof fn lemma_preimage_injective(
    domain: Seq<u8>,
    name1: Seq<u8>,
    fields1: Seq<u32>,
    name2: Seq<u8>,
    fields2: Seq<u32>,
)
    requires
        name1.len() <= u32::MAX,
        name2.len() <= u32::MAX,
        content_preimage(domain, name1, fields1) == content_preimage(domain, name2, fields2),
    ensures
        name1 == name2,
        fields1 == fields2,
{
    let p1 = content_preimage(domain, name1, fields1);
    let p2 = content_preimage(domain, name2, fields2);
    let d = domain.len() as int;
    wire::lemma_le_bytes_len(name1.len(), 4);
    wire::lemma_le_bytes_len(name2.len(), 4);
    assert(p1.subrange(d, d + 4) =~= wire::le_bytes(name1.len(), 4));
    assert(p2.subrange(d, d + 4) =~= wire::le_bytes(name2.len(), 4));
    wire::lemma_byte_ranges();
    wire::lemma_le_bytes_injective(name1.len(), name2.len(), 4);
    let n = name1.len() as int;
    assert(p1.subrange(d + 4, d + 4 + n) =~= name1);
    assert(p2.subrange(d + 4, d + 4 + n) =~= name2);
    assert(p1.skip(d + 4 + n) =~= words(fields1));
    assert(p2.skip(d + 4 + n) =~= words(fields2));
    lemma_words_injective(fields1, fields2);
}

/// What a definition is hashed from, byte by byte: the domain, the length of the
/// name in four bytes, the name, and each number in four bytes, in order.
pub proof fn lemma_preimage_layout(domain: Seq<u8>, name: Seq<u8>, fields: Seq<u32>, i: int)
    requires
        name.len() <= u32::MAX,
        0 <= i < fields.len(),
    ensures
        ({
            let bytes = content_preimage(domain, name, fields);
            let d = domain.len() as int;
            let n = name.len() as int;
            &&& bytes.len() == d + 4 + n + 4 * fields.len()
            &&& bytes.take(d) == domain
            &&& wire::le_field(bytes, d, 4) == name.len()
            &&& bytes.subrange(d + 4, d + 4 + n) == name
            &&& wire::le_field(bytes, d + 4 + n + 4 * i, 4) == fields[i]
        }),
{
    let bytes = content_preimage(domain, name, fields);
    let d = domain.len() as int;
    let n = name.len() as int;
    wire::lemma_byte_ranges();
    wire::lemma_le_bytes_len(name.len(), 4);
    lemma_words_len(fields);
    lemma_word_at(fields, i);
    assert(bytes.take(d) =~= domain);
    assert(bytes.subrange(d, d + 4) =~= wire::le_bytes(name.len(), 4));
    assert(bytes.subrange(d + 4, d + 4 + n) =~= name);
    assert(bytes.subrange(d + 4 + n + 4 * i, d + 4 + n + 4 * i + 4) =~= words(fields).subrange(
        4 * i,
        4 * i + 4,
    ));
    lemma_field(bytes, d, name.len(), 4);
    lemma_field(bytes, d + 4 + n + 4 * i, fields[i] as nat, 4);
}

/// Where one of several words stands.
proof fn lemma_word_at(fields: Seq<u32>, i: int)
    requires
        0 <= i < fields.len(),
    ensures
        words(fields).len() == 4 * fields.len(),
        words(fields).subrange(4 * i, 4 * i + 4) == wire::le_bytes(fields[i] as nat, 4),
    decreases fields.len(),
{
    let head = fields.drop_last();
    lemma_words_len(fields);
    lemma_words_len(head);
    wire::lemma_le_bytes_len(fields.last() as nat, 4);
    if i < head.len() {
        lemma_word_at(head, i);
        assert(words(fields).subrange(4 * i, 4 * i + 4) =~= words(head).subrange(4 * i, 4 * i + 4));
    } else {
        assert(words(fields).subrange(4 * i, 4 * i + 4) =~= wire::le_bytes(fields[i] as nat, 4));
    }
}

/// Identifiers are the first sixteen bytes of the BLAKE2s hash of the
/// definition: for a rate counter of its name, window and limit, for a latency
/// tracker of its name, sample lifetime, maximum and minimum, each behind the
/// words that keep the two apart.
pub proof fn lemma_identifiers_are_hashes(name: Seq<u8>, a: u32, b: u32, c: u32, i: int)
    requires
        0 <= i < 16,
    ensures
        bucket_id(name, a, b).len() == 16,
        bucket_id(name, a, b)[i] == crypto::blake2s256(
            content_preimage(
                utf8::encode_utf8("ratelimitly.resource.v1\0"@),
                name,
                seq![a, b],
            ),
        )[i],
        latency_tracker_id(name, a, b, c).len() == 16,
        latency_tracker_id(name, a, b, c)[i] == crypto::blake2s256(
            content_preimage(
                utf8::encode_utf8("ratelimitly.latency-tracker.v1\0"@),
                name,
                seq![a, b, c],
            ),
        )[i],
{
}

/// A rate counter and a latency tracker are never hashed from the same bytes.
pub proof fn lemma_domains_apart(
    name1: Seq<u8>,
    fields1: Seq<u32>,
    name2: Seq<u8>,
    fields2: Seq<u32>,
)
    ensures
        content_preimage(utf8::encode_utf8(RESOURCE_ID_DOMAIN@), name1, fields1)
            != content_preimage(utf8::encode_utf8(LATENCY_TRACKER_ID_DOMAIN@), name2, fields2),
{
    reveal_strlit("ratelimitly.resource.v1\0");
    reveal_strlit("ratelimitly.latency-tracker.v1\0");
    let (a, b) = (RESOURCE_ID_DOMAIN@, LATENCY_TRACKER_ID_DOMAIN@);
    assert(utf8::is_ascii_chars(a));
    assert(utf8::is_ascii_chars(b));
    utf8::is_ascii_chars_encode_utf8(a);
    utf8::is_ascii_chars_encode_utf8(b);
    let p1 = content_preimage(utf8::encode_utf8(a), name1, fields1);
    let p2 = content_preimage(utf8::encode_utf8(b), name2, fields2);
    assert(p1[12] == a[12] as u8);
    assert(p2[12] == b[12] as u8);
    assert(a[12] == 'r');
    assert(b[12] == 'l');
}

/// That a message is not authentic.
#[derive(Debug, Clone, Copy, PartialEq, Eq)]
pub struct NotAuthentic;

/// Two byte strings, one after the other.
pub fn joined_bytes(head: &[u8], tail: &[u8]) -> (joined: Vec<u8>)
    ensures
        joined@ == head@ + tail@,
{
    let mut joined: Vec<u8> = Vec::new();
    wire::append_bytes(&mut joined, head);
    wire::append_bytes(&mut joined, tail);
    assert(joined@ =~= head@ + tail@);
    joined
}

/// Splits what encryption returned into the ciphertext and the tag behind it.
pub fn split_sealed(sealed: &[u8]) -> (parts: (Vec<u8>, [u8; 16]))
    requires
        sealed@.len() >= 16,
    ensures
        parts.0@ == sealed@.take(sealed@.len() - 16),
        parts.1@ == sealed@.skip(sealed@.len() - 16),
        parts.0@ + parts.1@ == sealed@,
{
    let tag_offset: usize = sealed.len() - 16;
    let auth_tag: [u8; 16] = wire::read_array::<16>(sealed, tag_offset);
    let mut encrypted_pdu: Vec<u8> = Vec::new();
    wire::append_bytes(&mut encrypted_pdu, slice_subrange(sealed, 0, tag_offset));
    assert(encrypted_pdu@ =~= sealed@.take(tag_offset as int));
    assert(auth_tag@ =~= sealed@.skip(tag_offset as int));
    assert(encrypted_pdu@ + auth_tag@ =~= sealed@);
    (encrypted_pdu, auth_tag)
}

/// Encrypts a PDU under a given nonce. The nonce joins the associated data.
pub fn encrypt_pdu_with_nonce(pdu: &[u8], key: &[u8; 32], aad_prefix: &[u8], nonce: &[u8; 12]) -> (
encrypted: (Vec<u8>, [u8; 16]))
    requires
        pdu@.len() <= crypto::AES_GCM_MAX,
        pdu@.len() + 16 <= isize::MAX,
        aad_prefix@.len() + 12 <= crypto::AES_GCM_MAX,
    ensures
        encrypted.0@ + encrypted.1@ == crypto::aes256_gcm_sealed(
            key@,
            nonce@,
            aad_prefix@ + nonce@,
            pdu@,
        ),
        encrypted.0@.len() == pdu@.len(),
        crypto::aes256_gcm_opened(
            key@,
            nonce@,
            aad_prefix@ + nonce@,
            encrypted.0@ + encrypted.1@,
        ) == Some(pdu@),
{
    let aad: Vec<u8> = joined_bytes(aad_prefix, nonce);
    let sealed: Vec<u8> = match crypto::seal_aes256_gcm(key, nonce, aad.as_slice(), pdu) {
        Some(bytes) => bytes,
        None => Vec::new(),
    };
    split_sealed(sealed.as_slice())
}

/// Encrypts a PDU under a fresh random nonce. The nonce joins the associated
/// data. Returns the ciphertext, the nonce and the authentication tag.
pub fn encrypt_pdu(pdu: &[u8], key: &[u8; 32], aad_prefix: &[u8]) -> (encrypted: (
    Vec<u8>,
    [u8; 12],
    [u8; 16],
))
    requires
        pdu@.len() <= crypto::AES_GCM_MAX,
        pdu@.len() + 16 <= isize::MAX,
        aad_prefix@.len() + 12 <= crypto::AES_GCM_MAX,
    ensures
        encrypted.0@ + encrypted.2@ == crypto::aes256_gcm_sealed(
            key@,
            encrypted.1@,
            aad_prefix@ + encrypted.1@,
            pdu@,
        ),
        encrypted.0@.len() == pdu@.len(),
        crypto::aes256_gcm_opened(
            key@,
            encrypted.1@,
            aad_prefix@ + encrypted.1@,
            encrypted.0@ + encrypted.2@,
        ) == Some(pdu@),
{
    let nonce: [u8; 12] = crypto::random_nonce();
    let (encrypted_pdu, auth_tag) = encrypt_pdu_with_nonce(pdu, key, aad_prefix, &nonce);
    (encrypted_pdu, nonce, auth_tag)
}

/// Decrypts a PDU, provided ciphertext, tag and associated data are authentic.
pub fn decrypt_pdu(
    encrypted_pdu: &[u8],
    key: &[u8; 32],
    nonce: &[u8; 12],
    auth_tag: &[u8; 16],
    aad: &[u8],
) -> (pdu: Result<Vec<u8>, NotAuthentic>)
    ensures
        match pdu {
            Ok(bytes) => crypto::aes256_gcm_opened(
                key@,
                nonce@,
                aad@,
                encrypted_pdu@ + auth_tag@,
            ) == Some(bytes@),
            Err(_) => crypto::aes256_gcm_opened(
                key@,
                nonce@,
                aad@,
                encrypted_pdu@ + auth_tag@,
            ) is None,
        },
{
    let sealed: Vec<u8> = joined_bytes(encrypted_pdu, auth_tag);
    match crypto::open_aes256_gcm(key, nonce, aad, sealed.as_slice()) {
        Some(bytes) => Ok(bytes),
        None => Err(NotAuthentic),
    }
}

/// Type of the tenant header, the first type-length-value record (TLV).
pub const TLV_TENANT: u16 = 0x4C52;

/// Type of the authentication TLV without authentication.
pub const TLV_AUTH_NONE: u16 = 0x414E;

/// Type of the authentication TLV with a cookie hash.
pub const TLV_AUTH_COOKIE: u16 = 0x4143;

/// Type of the authentication TLV with AES-256-GCM.
pub const TLV_AUTH_AES: u16 = 0x4541;

/// Type of the metrics-label TLV.
pub const TLV_METRICS_LABEL: u16 = 0x4C4D;

/// Type of the resource-request PDU.
pub const PDU_RATE_REQUEST: u16 = 0x5452;

/// Type of the resource-response PDU.
pub const PDU_RATE_RESPONSE: u16 = 0x5252;

/// Type of the latency-report PDU.
pub const PDU_LATENCY_REPORT: u16 = 0x524C;

/// Bytes of a guard block.
pub const GUARD_BLOCK_WIRE_LEN: usize = 36;

/// Bytes of a resource block.
pub const RESOURCE_BLOCK_WIRE_LEN: usize = 28;

/// Bytes of a service-latency block.
pub const SERVICE_LATENCY_BLOCK_WIRE_LEN: usize = 32;

/// Bytes of the tenant header.
pub const TENANT_TLV_LEN: usize = 40;

/// A number that stands little-endian behind `at` bytes is the field there.
pub proof fn lemma_field(bytes: Seq<u8>, at: int, value: nat, n: nat)
    requires
        value < wire::byte_range(n),
        0 <= at,
        at + n <= bytes.len(),
        bytes.subrange(at, at + n) == wire::le_bytes(value, n),
    ensures
        wire::le_field(bytes, at, n as int) == value,
{
    wire::lemma_le_round_trip(value, n);
}

/// The header in front of every packet.
#[derive(Debug, Clone, Copy)]
pub struct TenantHeader {
    /// [`TLV_TENANT`].
    pub tlv_type: u16,
    /// Length of the TLV.
    pub tlv_size: u16,
    /// The key identifier of a request; the server identifier in a response.
    pub key_id: u64,
    /// The request identifier.
    pub unique_id: [u8; 16],
    /// Milliseconds since the Unix epoch.
    pub time_stamp: u64,
    /// In a request, whether advice is wanted; in a response, whether to keep
    /// the source port.
    pub steering_feedback: u8,
    /// Zero.
    pub tenant_mgmt_flag: u8,
    /// Zero.
    pub padding: [u8; 2],
}

impl TenantHeader {
    /// The header on the wire.
    pub open spec fn on_wire(self) -> Seq<u8> {
        wire::le_bytes(self.tlv_type as nat, 2) + wire::le_bytes(self.tlv_size as nat, 2)
            + wire::le_bytes(self.key_id as nat, 8) + self.unique_id@ + wire::le_bytes(
            self.time_stamp as nat,
            8,
        ) + seq![self.steering_feedback, self.tenant_mgmt_flag] + self.padding@
    }

    /// Whether the header is what stands at the front of `bytes`.
    pub open spec fn is_at_front(self, bytes: Seq<u8>) -> bool {
        &&& self.tlv_type == wire::le_field(bytes, 0, 2)
        &&& self.tlv_size == wire::le_field(bytes, 2, 2)
        &&& self.key_id == wire::le_field(bytes, 4, 8)
        &&& self.unique_id@ == bytes.subrange(12, 28)
        &&& self.time_stamp == wire::le_field(bytes, 28, 8)
        &&& self.steering_feedback == bytes[36]
        &&& self.tenant_mgmt_flag == bytes[37]
        &&& self.padding@ == bytes.subrange(38, 40)
    }

    /// The header on the wire.
    pub fn to_bytes(&self) -> (out: Vec<u8>)
        ensures
            out@ == self.on_wire(),
            out@.len() == TENANT_TLV_LEN,
    {
        let mut out: Vec<u8> = Vec::new();
        wire::append_bytes(&mut out, &wire::u16_le(self.tlv_type));
        wire::append_bytes(&mut out, &wire::u16_le(self.tlv_size));
        wire::append_bytes(&mut out, &wire::u64_le(self.key_id));
        wire::append_bytes(&mut out, &self.unique_id);
        wire::append_bytes(&mut out, &wire::u64_le(self.time_stamp));
        out.push(self.steering_feedback);
        out.push(self.tenant_mgmt_flag);
        wire::append_bytes(&mut out, &self.padding);
        assert(out@ =~= self.on_wire());
        out
    }

    /// Writes the header to the front of a buffer.
    pub fn write_to_buffer(&self, buffer: &mut [u8])
        requires
            old(buffer).len() >= TENANT_TLV_LEN,
        ensures
            final(buffer)@ == wire::patched(old(buffer)@, 0, self.on_wire()),
    {
        let bytes: Vec<u8> = self.to_bytes();
        wire::put_bytes(buffer, 0, bytes.as_slice());
    }

    /// Reads the header at the front of a buffer.
    pub fn read_from_buffer(buffer: &[u8]) -> (header: Result<Self, &'static str>)
        ensures
            match header {
                Ok(h) => buffer@.len() >= TENANT_TLV_LEN && h.is_at_front(buffer@),
                Err(e) => buffer@.len() < TENANT_TLV_LEN && e@
                    == "Buffer too small for TenantHeader"@,
            },
    {
        if buffer.len() < TENANT_TLV_LEN {
            return Err("Buffer too small for TenantHeader");
        }
        Ok(
            TenantHeader {
                tlv_type: wire::read_u16(buffer, 0),
                tlv_size: wire::read_u16(buffer, 2),
                key_id: wire::read_u64(buffer, 4),
                unique_id: wire::read_array::<16>(buffer, 12),
                time_stamp: wire::read_u64(buffer, 28),
                steering_feedback: buffer[36],
                tenant_mgmt_flag: buffer[37],
                padding: wire::read_array::<2>(buffer, 38),
            },
        )
    }
}

/// Where the fields of a header stand.
pub proof fn lemma_tenant_header_layout(header: TenantHeader)
    ensures
        ({
            let bytes = header.on_wire();
            &&& bytes.len() == 40
            &&& wire::le_field(bytes, 0, 2) == header.tlv_type
            &&& wire::le_field(bytes, 2, 2) == header.tlv_size
            &&& wire::le_field(bytes, 4, 8) == header.key_id
            &&& bytes.subrange(12, 28) == header.unique_id@
            &&& wire::le_field(bytes, 28, 8) == header.time_stamp
            &&& bytes[36] == header.steering_feedback
            &&& bytes[37] == header.tenant_mgmt_flag
            &&& bytes.subrange(38, 40) == header.padding@
        }),
{
    let bytes = header.on_wire();
    wire::lemma_byte_ranges();
    wire::lemma_le_bytes_len(header.tlv_type as nat, 2);
    wire::lemma_le_bytes_len(header.tlv_size as nat, 2);
    wire::lemma_le_bytes_len(header.key_id as nat, 8);
    wire::lemma_le_bytes_len(header.time_stamp as nat, 8);
    assert(bytes.subrange(0, 2) =~= wire::le_bytes(header.tlv_type as nat, 2));
    assert(bytes.subrange(2, 4) =~= wire::le_bytes(header.tlv_size as nat, 2));
    assert(bytes.subrange(4, 12) =~= wire::le_bytes(header.key_id as nat, 8));
    assert(bytes.subrange(12, 28) =~= header.unique_id@);
    assert(bytes.subrange(28, 36) =~= wire::le_bytes(header.time_stamp as nat, 8));
    assert(bytes.subrange(38, 40) =~= header.padding@);
    lemma_field(bytes, 0, header.tlv_type as nat, 2);
    lemma_field(bytes, 2, header.tlv_size as nat, 2);
    lemma_field(bytes, 4, header.key_id as nat, 8);
    lemma_field(bytes, 28, header.time_stamp as nat, 8);
}

/// Reading a written header gives the header back, whatever follows it.
pub proof fn lemma_tenant_header_round_trip(header: TenantHeader, rest: Seq<u8>, read: TenantHeader)
    requires
        read.is_at_front(header.on_wire() + rest),
    ensures
        read == header,
{
    let bytes = header.on_wire() + rest;
    wire::lemma_byte_ranges();
    wire::lemma_le_bytes_len(header.tlv_type as nat, 2);
    wire::lemma_le_bytes_len(header.tlv_size as nat, 2);
    wire::lemma_le_bytes_len(header.key_id as nat, 8);
    wire::lemma_le_bytes_len(header.time_stamp as nat, 8);
    assert(bytes.subrange(0, 2) =~= wire::le_bytes(header.tlv_type as nat, 2));
    assert(bytes.subrange(2, 4) =~= wire::le_bytes(header.tlv_size as nat, 2));
    assert(bytes.subrange(4, 12) =~= wire::le_bytes(header.key_id as nat, 8));
    assert(bytes.subrange(12, 28) =~= header.unique_id@);
    assert(bytes.subrange(28, 36) =~= wire::le_bytes(header.time_stamp as nat, 8));
    assert(bytes.subrange(38, 40) =~= header.padding@);
    lemma_field(bytes, 0, header.tlv_type as nat, 2);
    lemma_field(bytes, 2, header.tlv_size as nat, 2);
    lemma_field(bytes, 4, header.key_id as nat, 8);
    lemma_field(bytes, 28, header.time_stamp as nat, 8);
    assert(read.unique_id == header.unique_id);
    assert(read.padding == header.padding);
}

/// One latency guard of a request, or its result in a response.
#[derive(Debug, Clone, Copy)]
pub struct GuardBlock {
    /// Identifier of the tracker.
    pub latency_tracker_id: [u8; 16],
    /// Sample lifetime in milliseconds.
    pub ttl_ms: u32,
    /// Number of samples considered.
    pub max_samples: u32,
    /// Samples below which the guard passes.
    pub min_sample_threshold: u32,
    /// The latency that must stay below, in milliseconds.
    pub latency_threshold: u32,
    /// The latency found, in milliseconds.
    pub current_latency: u32,
}

impl GuardBlock {
    /// The block on the wire.
    pub open spec fn on_wire(self) -> Seq<u8> {
        self.latency_tracker_id@ + wire::le_bytes(self.ttl_ms as nat, 4) + wire::le_bytes(
            self.max_samples as nat,
            4,
        ) + wire::le_bytes(self.min_sample_threshold as nat, 4) + wire::le_bytes(
            self.latency_threshold as nat,
            4,
        ) + wire::le_bytes(self.current_latency as nat, 4)
    }

    /// Whether the block is what stands at the front of `bytes`.
    pub open spec fn is_at_front(self, bytes: Seq<u8>) -> bool {
        &&& self.latency_tracker_id@ == bytes.subrange(0, 16)
        &&& self.ttl_ms == wire::le_field(bytes, 16, 4)
        &&& self.max_samples == wire::le_field(bytes, 20, 4)
        &&& self.min_sample_threshold == wire::le_field(bytes, 24, 4)
        &&& self.latency_threshold == wire::le_field(bytes, 28, 4)
        &&& self.current_latency == wire::le_field(bytes, 32, 4)
    }

    /// The block on the wire.
    pub fn to_bytes(&self) -> (out: Vec<u8>)
        ensures
            out@ == self.on_wire(),
            out@.len() == GUARD_BLOCK_WIRE_LEN,
    {
        let mut out: Vec<u8> = Vec::new();
        wire::append_bytes(&mut out, &self.latency_tracker_id);
        wire::append_bytes(&mut out, &wire::u32_le(self.ttl_ms));
        wire::append_bytes(&mut out, &wire::u32_le(self.max_samples));
        wire::append_bytes(&mut out, &wire::u32_le(self.min_sample_threshold));
        wire::append_bytes(&mut out, &wire::u32_le(self.latency_threshold));
        wire::append_bytes(&mut out, &wire::u32_le(self.current_latency));
        assert(out@ =~= self.on_wire());
        out
    }

    /// Writes the block to the front of a buffer.
    pub fn write_to_buffer(&self, buffer: &mut [u8])
        requires
            old(buffer).len() >= GUARD_BLOCK_WIRE_LEN,
        ensures
            final(buffer)@ == wire::patched(old(buffer)@, 0, self.on_wire()),
    {
        let bytes: Vec<u8> = self.to_bytes();
        wire::put_bytes(buffer, 0, bytes.as_slice());
    }

    /// Reads the block at the front of a buffer.
    pub fn read_from_buffer(buffer: &[u8]) -> (block: Result<Self, &'static str>)
        ensures
            match block {
                Ok(b) => buffer@.len() >= GUARD_BLOCK_WIRE_LEN && b.is_at_front(buffer@),
                Err(e) => buffer@.len() < GUARD_BLOCK_WIRE_LEN && e@
                    == "Buffer too small for GuardBlock"@,
            },
    {
        if buffer.len() < GUARD_BLOCK_WIRE_LEN {
            return Err("Buffer too small for GuardBlock");
        }
        Ok(
            GuardBlock {
                latency_tracker_id: wire::read_array::<16>(buffer, 0),
                ttl_ms: wire::read_u32(buffer, 16),
                max_samples: wire::read_u32(buffer, 20),
                min_sample_threshold: wire::read_u32(buffer, 24),
                latency_threshold: wire::read_u32(buffer, 28),
                current_latency: wire::read_u32(buffer, 32),
            },
        )
    }
}

/// Where the fields of a guard block stand.
pub proof fn lemma_guard_block_layout(block: GuardBlock)
    ensures
        ({
            let bytes = block.on_wire();
            &&& bytes.len() == 36
            &&& bytes.subrange(0, 16) == block.latency_tracker_id@
            &&& wire::le_field(bytes, 16, 4) == block.ttl_ms
            &&& wire::le_field(bytes, 20, 4) == block.max_samples
            &&& wire::le_field(bytes, 24, 4) == block.min_sample_threshold
            &&& wire::le_field(bytes, 28, 4) == block.latency_threshold
            &&& wire::le_field(bytes, 32, 4) == block.current_latency
        }),
{
    let bytes = block.on_wire();
    wire::lemma_byte_ranges();
    wire::lemma_le_bytes_len(block.ttl_ms as nat, 4);
    wire::lemma_le_bytes_len(block.max_samples as nat, 4);
    wire::lemma_le_bytes_len(block.min_sample_threshold as nat, 4);
    wire::lemma_le_bytes_len(block.latency_threshold as nat, 4);
    wire::lemma_le_bytes_len(block.current_latency as nat, 4);
    assert(bytes.subrange(0, 16) =~= block.latency_tracker_id@);
    assert(bytes.subrange(16, 20) =~= wire::le_bytes(block.ttl_ms as nat, 4));
    assert(bytes.subrange(20, 24) =~= wire::le_bytes(block.max_samples as nat, 4));
    assert(bytes.subrange(24, 28) =~= wire::le_bytes(block.min_sample_threshold as nat, 4));
    assert(bytes.subrange(28, 32) =~= wire::le_bytes(block.latency_threshold as nat, 4));
    assert(bytes.subrange(32, 36) =~= wire::le_bytes(block.current_latency as nat, 4));
    lemma_field(bytes, 16, block.ttl_ms as nat, 4);
    lemma_field(bytes, 20, block.max_samples as nat, 4);
    lemma_field(bytes, 24, block.min_sample_threshold as nat, 4);
    lemma_field(bytes, 28, block.latency_threshold as nat, 4);
    lemma_field(bytes, 32, block.current_latency as nat, 4);
}

/// Reading a written guard block gives the block back, whatever follows it.
pub proof fn lemma_guard_block_round_trip(block: GuardBlock, rest: Seq<u8>, read: GuardBlock)
    requires
        read.is_at_front(block.on_wire() + rest),
    ensures
        read == block,
{
    let bytes = block.on_wire() + rest;
    wire::lemma_byte_ranges();
    wire::lemma_le_bytes_len(block.ttl_ms as nat, 4);
    wire::lemma_le_bytes_len(block.max_samples as nat, 4);
    wire::lemma_le_bytes_len(block.min_sample_threshold as nat, 4);
    wire::lemma_le_bytes_len(block.latency_threshold as nat, 4);
    wire::lemma_le_bytes_len(block.current_latency as nat, 4);
    assert(bytes.subrange(0, 16) =~= block.latency_tracker_id@);
    assert(bytes.subrange(16, 20) =~= wire::le_bytes(block.ttl_ms as nat, 4));
    assert(bytes.subrange(20, 24) =~= wire::le_bytes(block.max_samples as nat, 4));
    assert(bytes.subrange(24, 28) =~= wire::le_bytes(block.min_sample_threshold as nat, 4));
    assert(bytes.subrange(28, 32) =~= wire::le_bytes(block.latency_threshold as nat, 4));
    assert(bytes.subrange(32, 36) =~= wire::le_bytes(block.current_latency as nat, 4));
    lemma_field(bytes, 16, block.ttl_ms as nat, 4);
    lemma_field(bytes, 20, block.max_samples as nat, 4);
    lemma_field(bytes, 24, block.min_sample_threshold as nat, 4);
    lemma_field(bytes, 28, block.latency_threshold as nat, 4);
    lemma_field(bytes, 32, block.current_latency as nat, 4);
    assert(read.latency_tracker_id == block.latency_tracker_id);
}

/// One resource consumption of a request, or its result in a response.
#[derive(Debug, Clone, Copy)]
pub struct ResourceBlock {
    /// Identifier of the rate counter.
    pub bucket_id: [u8; 16],
    /// Window in milliseconds.
    pub window_size_ms: u32,
    /// Tokens in one window; in a response, the tokens consumed.
    pub rate_limit: u32,
    /// Tokens asked for; in a response, the deficit.
    pub tokens_requested: u16,
    /// Zero.
    pub padding: u16,
}

impl ResourceBlock {
    /// The block on the wire.
    pub open spec fn on_wire(self) -> Seq<u8> {
        self.bucket_id@ + wire::le_bytes(self.window_size_ms as nat, 4) + wire::le_bytes(
            self.rate_limit as nat,
            4,
        ) + wire::le_bytes(self.tokens_requested as nat, 2) + wire::le_bytes(self.padding as nat, 2)
    }

    /// Whether the block is what stands at the front of `bytes`.
    pub open spec fn is_at_front(self, bytes: Seq<u8>) -> bool {
        &&& self.bucket_id@ == bytes.subrange(0, 16)
        &&& self.window_size_ms == wire::le_field(bytes, 16, 4)
        &&& self.rate_limit == wire::le_field(bytes, 20, 4)
        &&& self.tokens_requested == wire::le_field(bytes, 24, 2)
        &&& self.padding == wire::le_field(bytes, 26, 2)
    }

    /// The block on the wire.
    pub fn to_bytes(&self) -> (out: Vec<u8>)
        ensures
            out@ == self.on_wire(),
            out@.len() == RESOURCE_BLOCK_WIRE_LEN,
    {
        let mut out: Vec<u8> = Vec::new();
        wire::append_bytes(&mut out, &self.bucket_id);
        wire::append_bytes(&mut out, &wire::u32_le(self.window_size_ms));
        wire::append_bytes(&mut out, &wire::u32_le(self.rate_limit));
        wire::append_bytes(&mut out, &wire::u16_le(self.tokens_requested));
        wire::append_bytes(&mut out, &wire::u16_le(self.padding));
        assert(out@ =~= self.on_wire());
        out
    }

    /// Writes the block to the front of a buffer.
    pub fn write_to_buffer(&self, buffer: &mut [u8])
        requires
            old(buffer).len() >= RESOURCE_BLOCK_WIRE_LEN,
        ensures
            final(buffer)@ == wire::patched(old(buffer)@, 0, self.on_wire()),
    {
        let bytes: Vec<u8> = self.to_bytes();
        wire::put_bytes(buffer, 0, bytes.as_slice());
    }

    /// Reads the block at the front of a buffer.
    pub fn read_from_buffer(buffer: &[u8]) -> (block: Result<Self, &'static str>)
        ensures
            match block {
                Ok(b) => buffer@.len() >= RESOURCE_BLOCK_WIRE_LEN && b.is_at_front(buffer@),
                Err(e) => buffer@.len() < RESOURCE_BLOCK_WIRE_LEN && e@
                    == "Buffer too small for ResourceBlock"@,
            },
    {
        if buffer.len() < RESOURCE_BLOCK_WIRE_LEN {
            return Err("Buffer too small for ResourceBlock");
        }
        Ok(
            ResourceBlock {
                bucket_id: wire::read_array::<16>(buffer, 0),
                window_size_ms: wire::read_u32(buffer, 16),
                rate_limit: wire::read_u32(buffer, 20),
                tokens_requested: wire::read_u16(buffer, 24),
                padding: wire::read_u16(buffer, 26),
            },
        )
    }
}

/// Where the fields of a resource block stand.
pub proof fn lemma_resource_block_layout(block: ResourceBlock)
    ensures
        ({
            let bytes = block.on_wire();
            &&& bytes.len() == 28
            &&& bytes.subrange(0, 16) == block.bucket_id@
            &&& wire::le_field(bytes, 16, 4) == block.window_size_ms
            &&& wire::le_field(bytes, 20, 4) == block.rate_limit
            &&& wire::le_field(bytes, 24, 2) == block.tokens_requested
            &&& wire::le_field(bytes, 26, 2) == block.padding
        }),
{
    let bytes = block.on_wire();
    wire::lemma_byte_ranges();
    wire::lemma_le_bytes_len(block.window_size_ms as nat, 4);
    wire::lemma_le_bytes_len(block.rate_limit as nat, 4);
    wire::lemma_le_bytes_len(block.tokens_requested as nat, 2);
    wire::lemma_le_bytes_len(block.padding as nat, 2);
    assert(bytes.subrange(0, 16) =~= block.bucket_id@);
    assert(bytes.subrange(16, 20) =~= wire::le_bytes(block.window_size_ms as nat, 4));
    assert(bytes.subrange(20, 24) =~= wire::le_bytes(block.rate_limit as nat, 4));
    assert(bytes.subrange(24, 26) =~= wire::le_bytes(block.tokens_requested as nat, 2));
    assert(bytes.subrange(26, 28) =~= wire::le_bytes(block.padding as nat, 2));
    lemma_field(bytes, 16, block.window_size_ms as nat, 4);
    lemma_field(bytes, 20, block.rate_limit as nat, 4);
    lemma_field(bytes, 24, block.tokens_requested as nat, 2);
    lemma_field(bytes, 26, block.padding as nat, 2);
}

/// Reading a written resource block gives the block back, whatever follows it.
pub proof fn lemma_resource_block_round_trip(
    block: ResourceBlock,
    rest: Seq<u8>,
    read: ResourceBlock,
)
    requires
        read.is_at_front(block.on_wire() + rest),
    ensures
        read == block,
{
    let bytes = block.on_wire() + rest;
    wire::lemma_byte_ranges();
    wire::lemma_le_bytes_len(block.window_size_ms as nat, 4);
    wire::lemma_le_bytes_len(block.rate_limit as nat, 4);
    wire::lemma_le_bytes_len(block.tokens_requested as nat, 2);
    wire::lemma_le_bytes_len(block.padding as nat, 2);
    assert(bytes.subrange(0, 16) =~= block.bucket_id@);
    assert(bytes.subrange(16, 20) =~= wire::le_bytes(block.window_size_ms as nat, 4));
    assert(bytes.subrange(20, 24) =~= wire::le_bytes(block.rate_limit as nat, 4));
    assert(bytes.subrange(24, 26) =~= wire::le_bytes(block.tokens_requested as nat, 2));
    assert(bytes.subrange(26, 28) =~= wire::le_bytes(block.padding as nat, 2));
    lemma_field(bytes, 16, block.window_size_ms as nat, 4);
    lemma_field(bytes, 20, block.rate_limit as nat, 4);
    lemma_field(bytes, 24, block.tokens_requested as nat, 2);
    lemma_field(bytes, 26, block.padding as nat, 2);
    assert(read.bucket_id == block.bucket_id);
}

/// One observation of a latency report.
#[derive(Debug, Clone)]
pub struct ServiceLatencyBlock {
    /// Identifier of the tracker.
    pub latency_tracker_id: [u8; 16],
    /// Sample lifetime in milliseconds.
    pub ttl_ms: u32,
    /// Number of samples considered.
    pub max_samples: u32,
    /// Samples below which guards pass.
    pub min_sample_threshold: u32,
    /// The latency observed, in milliseconds.
    pub observed_latency: u32,
}

impl ServiceLatencyBlock {
    /// The block on the wire.
    pub open spec fn on_wire(self) -> Seq<u8> {
        self.latency_tracker_id@ + wire::le_bytes(self.ttl_ms as nat, 4) + wire::le_bytes(
            self.max_samples as nat,
            4,
        ) + wire::le_bytes(self.min_sample_threshold as nat, 4) + wire::le_bytes(
            self.observed_latency as nat,
            4,
        )
    }

    /// The block on the wire.
    pub fn to_bytes(&self) -> (out: Vec<u8>)
        ensures
            out@ == self.on_wire(),
            out@.len() == SERVICE_LATENCY_BLOCK_WIRE_LEN,
    {
        let mut out: Vec<u8> = Vec::new();
        wire::append_bytes(&mut out, &self.latency_tracker_id);
        wire::append_bytes(&mut out, &wire::u32_le(self.ttl_ms));
        wire::append_bytes(&mut out, &wire::u32_le(self.max_samples));
        wire::append_bytes(&mut out, &wire::u32_le(self.min_sample_threshold));
        wire::append_bytes(&mut out, &wire::u32_le(self.observed_latency));
        assert(out@ =~= self.on_wire());
        out
    }

    /// Writes the block to the front of a buffer.
    pub fn write_to_buffer(&self, buffer: &mut [u8])
        requires
            old(buffer).len() >= SERVICE_LATENCY_BLOCK_WIRE_LEN,
        ensures
            final(buffer)@ == wire::patched(old(buffer)@, 0, self.on_wire()),
    {
        let bytes: Vec<u8> = self.to_bytes();
        wire::put_bytes(buffer, 0, bytes.as_slice());
    }
}

/// Where the fields of a service-latency block stand.
pub proof fn lemma_service_latency_block_layout(block: ServiceLatencyBlock)
    ensures
        ({
            let bytes = block.on_wire();
            &&& bytes.len() == 32
            &&& bytes.subrange(0, 16) == block.latency_tracker_id@
            &&& wire::le_field(bytes, 16, 4) == block.ttl_ms
            &&& wire::le_field(bytes, 20, 4) == block.max_samples
            &&& wire::le_field(bytes, 24, 4) == block.min_sample_threshold
            &&& wire::le_field(bytes, 28, 4) == block.observed_latency
        }),
{
    let bytes = block.on_wire();
    wire::lemma_byte_ranges();
    wire::lemma_le_bytes_len(block.ttl_ms as nat, 4);
    wire::lemma_le_bytes_len(block.max_samples as nat, 4);
    wire::lemma_le_bytes_len(block.min_sample_threshold as nat, 4);
    wire::lemma_le_bytes_len(block.observed_latency as nat, 4);
    assert(bytes.subrange(0, 16) =~= block.latency_tracker_id@);
    assert(bytes.subrange(16, 20) =~= wire::le_bytes(block.ttl_ms as nat, 4));
    assert(bytes.subrange(20, 24) =~= wire::le_bytes(block.max_samples as nat, 4));
    assert(bytes.subrange(24, 28) =~= wire::le_bytes(block.min_sample_threshold as nat, 4));
    assert(bytes.subrange(28, 32) =~= wire::le_bytes(block.observed_latency as nat, 4));
    lemma_field(bytes, 16, block.ttl_ms as nat, 4);
    lemma_field(bytes, 20, block.max_samples as nat, 4);
    lemma_field(bytes, 24, block.min_sample_threshold as nat, 4);
    lemma_field(bytes, 28, block.observed_latency as nat, 4);
}

/// One resource consumption that a request asks for.
#[derive(Debug, Clone)]
pub struct ResourceRequest {
    /// Name of the rate counter.
    pub bucket_name: String,
    /// Window in milliseconds.
    pub window_size_ms: u32,
    /// Tokens in one window.
    pub rate_limit: u32,
    /// Tokens asked for.
    pub tokens_requested: u16,
}

/// One latency guard that a request asks for.
#[derive(Debug, Clone)]
pub struct LatencyGuard {
    /// Name of the tracker.
    pub latency_tracker_name: String,
    /// The latency that must stay below, in milliseconds.
    pub threshold_ms: u32,
    /// Sample lifetime in milliseconds.
    pub ttl_ms: u32,
    /// Number of samples considered.
    pub max_samples: u32,
    /// Samples below which the guard passes.
    pub min_sample_threshold: u32,
}

/// One observation to report.
#[derive(Debug, Clone)]
pub struct ServiceLatencyReport {
    /// Name of the tracker.
    pub latency_tracker_name: String,
    /// The latency observed, in milliseconds.
    pub observed_latency: u32,
    /// Sample lifetime in milliseconds.
    pub ttl_ms: u32,
    /// Number of samples considered.
    pub max_samples: u32,
    /// Samples below which guards pass.
    pub min_sample_threshold: u32,
}

/// The result of one guard.
#[derive(Debug, Clone, Copy)]
pub struct GuardResult {
    /// Identifier of the tracker.
    pub latency_tracker_id: [u8; 16],
    /// The latency that had to stay below, in milliseconds.
    pub threshold_ms: u32,
    /// The latency found, in milliseconds.
    pub current_latency_ms: u32,
    /// Whether it stayed below.
    pub passed: bool,
}

/// The result of one resource consumption.
#[derive(Debug, Clone, Copy)]
pub struct ResourceResult {
    /// Identifier of the rate counter.
    pub bucket_id: [u8; 16],
    /// Tokens that could not be supplied.
    pub tokens_deficit: u16,
    /// Tokens consumed in the window.
    pub actual_rate: u32,
}

/// The result of a request.
#[derive(Debug, Clone)]
pub struct RateLimitResult {
    /// Whether every guard passed and no token was missing.
    pub success: bool,
    /// One result for each guard.
    pub guard_results: Vec<GuardResult>,
    /// One result for each resource.
    pub resource_results: Vec<ResourceResult>,
    /// The server that answered; zero for a local grant.
    pub server_id: u64,
    /// Whether the source port should be kept.
    pub steering_feedback: bool,
}

/// The content of a [`GuardResult`].
pub ghost struct GuardResultView {
    pub latency_tracker_id: Seq<u8>,
    pub threshold_ms: u32,
    pub current_latency_ms: u32,
    pub passed: bool,
}

impl View for GuardResult {
    type V = GuardResultView;

    open spec fn view(&self) -> GuardResultView {
        GuardResultView {
            latency_tracker_id: self.latency_tracker_id@,
            threshold_ms: self.threshold_ms,
            current_latency_ms: self.current_latency_ms,
            passed: self.passed,
        }
    }
}

/// The content of a [`ResourceResult`].
pub ghost struct ResourceResultView {
    pub bucket_id: Seq<u8>,
    pub tokens_deficit: u16,
    pub actual_rate: u32,
}

impl View for ResourceResult {
    type V = ResourceResultView;

    open spec fn view(&self) -> ResourceResultView {
        ResourceResultView {
            bucket_id: self.bucket_id@,
            tokens_deficit: self.tokens_deficit,
            actual_rate: self.actual_rate,
        }
    }
}

/// The content of a [`RateLimitResult`].
pub ghost struct RateLimitResultView {
    pub success: bool,
    pub guard_results: Seq<GuardResultView>,
    pub resource_results: Seq<ResourceResultView>,
    pub server_id: u64,
    pub steering_feedback: bool,
}

impl View for RateLimitResult {
    type V = RateLimitResultView;

    open spec fn view(&self) -> RateLimitResultView {
        RateLimitResultView {
            success: self.success,
            guard_results: Seq::new(self.guard_results@.len(), |i: int| self.guard_results@[i]@),
            resource_results: Seq::new(
                self.resource_results@.len(),
                |i: int| self.resource_results@[i]@,
            ),
            server_id: self.server_id,
            steering_feedback: self.steering_feedback,
        }
    }
}

/// The content of a result is its fields, entry by entry.
pub proof fn lemma_result_content(result: RateLimitResult)
    ensures
        result@.success == result.success,
        result@.server_id == result.server_id,
        result@.steering_feedback == result.steering_feedback,
        result@.guard_results.len() == result.guard_results@.len(),
        result@.resource_results.len() == result.resource_results@.len(),
        forall|i: int|
            0 <= i < result.guard_results@.len() ==> {
                let (found, entry) = (
                    #[trigger] result@.guard_results[i],
                    result.guard_results@[i],
                );
                &&& found.latency_tracker_id == entry.latency_tracker_id@
                &&& found.threshold_ms == entry.threshold_ms
                &&& found.current_latency_ms == entry.current_latency_ms
                &&& found.passed == entry.passed
            },
        forall|i: int|
            0 <= i < result.resource_results@.len() ==> {
                let (found, entry) = (
                    #[trigger] result@.resource_results[i],
                    result.resource_results@[i],
                );
                &&& found.bucket_id == entry.bucket_id@
                &&& found.tokens_deficit == entry.tokens_deficit
                &&& found.actual_rate == entry.actual_rate
            },
{
}

} // verus!
