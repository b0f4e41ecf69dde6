//! Responses on the wire.

use vstd::prelude::*;
use vstd::slice::slice_subrange;

use crate::client;
use crate::client::CoreClient;
use crate::config::AuthMethod;
use crate::crypto;
use crate::error::{CoreError, CoreErrorView};
use crate::protocol;
use crate::protocol::{
    decrypt_pdu, GuardBlock, GuardResult, GuardResultView, NotAuthentic, RateLimitResult,
    RateLimitResultView, ResourceBlock, ResourceResult, ResourceResultView, TenantHeader,
};
use crate::text;
use crate::wire;

verus! {

/// A PDU, in the packet that it came in or decrypted from it.
pub enum PduData<'a> {
    /// Part of the packet.
    Borrowed(&'a [u8]),
    /// Decrypted.
    Owned(Vec<u8>),
}

impl<'a> PduData<'a> {
    /// The bytes of the PDU.
    pub open spec fn content(&self) -> Seq<u8> {
        match self {
            PduData::Borrowed(data) => data@,
            PduData::Owned(data) => data@,
        }
    }

    /// The bytes of the PDU.
    pub fn as_slice(&self) -> (bytes: &[u8])
        ensures
            bytes@ == self.content(),
    {
        match self {
            PduData::Borrowed(data) => data,
            PduData::Owned(data) => data.as_slice(),
        }
    }
}

/// What is said of a type other than the one expected.
pub open spec fn type_mismatch_text(head: Seq<char>, expected: nat, found: nat) -> Seq<char> {
    head + text::prefixed_hex_text(expected) + ", got "@ + text::prefixed_hex_text(found)
}

/// Why the front of a packet is no tenant header, if it is none.
pub open spec fn tenant_error(data: Seq<u8>) -> Option<CoreErrorView> {
    let found = wire::le_field(data, 0, 2);
    let size = wire::le_field(data, 2, 2);
    if data.len() < 4 {
        Some(CoreErrorView::Protocol("Buffer too small for Tenant TLV header"@))
    } else if found != protocol::TLV_TENANT {
        Some(
            CoreErrorView::Protocol(
                type_mismatch_text(
                    "Expected Tenant TLV type "@,
                    protocol::TLV_TENANT as nat,
                    found,
                ),
            ),
        )
    } else if size < protocol::TENANT_TLV_LEN {
        Some(CoreErrorView::Protocol("Tenant TLV too small"@))
    } else if data.len() < size {
        Some(CoreErrorView::Protocol("Buffer too small for Tenant TLV body"@))
    } else {
        None
    }
}

/// The type of the authentication TLV that a method uses.
pub open spec fn auth_type(method: AuthMethod) -> u16 {
    match method {
        AuthMethod::Unauthenticated => protocol::TLV_AUTH_NONE,
        AuthMethod::Cookie(_) => protocol::TLV_AUTH_COOKIE,
        AuthMethod::AesGcm(_) => protocol::TLV_AUTH_AES,
    }
}

/// The content of an optional secret.
pub open spec fn secret_bytes(secret: Option<[u8; 32]>) -> Option<Seq<u8>> {
    match secret {
        Some(bytes) => Some(bytes@),
        None => None,
    }
}

/// What is behind an authentication TLV with a cookie at `pos`.
pub open spec fn behind_cookie(data: Seq<u8>, pos: int, cookie: Option<Seq<u8>>) -> Result<
    Seq<u8>,
    CoreErrorView,
> {
    match cookie {
        None => Err(CoreErrorView::Auth("Missing cookie hash cache"@)),
        Some(expected) => if data.subrange(pos + 4, pos + 36) != expected {
            Err(CoreErrorView::Auth("Cookie auth mismatch"@))
        } else {
            Ok(data.skip(pos + 36))
        },
    }
}

/// What is encrypted behind an authentication TLV with AES-256-GCM at `pos`.
/// Everything up to the nonce, the nonce with it, is associated data.
pub open spec fn behind_aes(data: Seq<u8>, pos: int, key: Option<Seq<u8>>) -> Result<
    Seq<u8>,
    CoreErrorView,
> {
    match key {
        None => Err(CoreErrorView::Auth("Missing AES key cache"@)),
        Some(k) => {
            match crypto::aes256_gcm_opened(
                k,
                data.subrange(pos + 4, pos + 16),
                data.take(pos + 16),
                data.skip(pos + 32) + data.subrange(pos + 16, pos + 32),
            ) {
                Some(pdu) => Ok(pdu),
                None => Err(CoreErrorView::Protocol("AES decryption failed"@)),
            }
        },
    }
}

/// The PDU behind the authentication TLV at `pos`, provided that the TLV is
/// what the method asks for.
pub open spec fn auth_parsed(
    data: Seq<u8>,
    pos: int,
    method: AuthMethod,
    cookie: Option<Seq<u8>>,
    key: Option<Seq<u8>>,
) -> Result<Seq<u8>, CoreErrorView> {
    let found = wire::le_field(data, pos, 2);
    let size = wire::le_field(data, pos + 2, 2);
    if data.len() < pos + 4 {
        Err(CoreErrorView::Protocol("Buffer too small for Auth TLV header"@))
    } else if size < 4 {
        Err(CoreErrorView::Protocol("Invalid Auth TLV size"@))
    } else if data.len() < pos + size {
        Err(CoreErrorView::Protocol("Buffer too small for Auth TLV body"@))
    } else if found != auth_type(method) {
        Err(
            CoreErrorView::Auth(
                type_mismatch_text(
                    "Auth type mismatch: expected "@,
                    auth_type(method) as nat,
                    found,
                ),
            ),
        )
    } else {
        match method {
            AuthMethod::Unauthenticated => if size != 4 {
                Err(
                    CoreErrorView::Protocol(
                        "Invalid size for AUTH_NONE TLV: "@ + text::decimal_text(size),
                    ),
                )
            } else {
                Ok(data.skip(pos + 4))
            },
            AuthMethod::Cookie(_) => if size != 36 {
                Err(
                    CoreErrorView::Protocol(
                        "Invalid size for AUTH_COOKIE TLV: "@ + text::decimal_text(size),
                    ),
                )
            } else {
                behind_cookie(data, pos, cookie)
            },
            AuthMethod::AesGcm(_) => if size != 32 {
                Err(
                    CoreErrorView::Protocol(
                        "Invalid size for AUTH_AES TLV: "@ + text::decimal_text(size),
                    ),
                )
            } else {
                behind_aes(data, pos, key)
            },
        }
    }
}

/// The guard result at `at`: it passed if the latency found is below the
/// threshold.
pub open spec fn guard_result_at(body: Seq<u8>, at: int) -> GuardResultView {
    let threshold = wire::le_field(body, at + 28, 4);
    let current = wire::le_field(body, at + 32, 4);
    GuardResultView {
        latency_tracker_id: body.subrange(at, at + 16),
        threshold_ms: threshold as u32,
        current_latency_ms: current as u32,
        passed: current < threshold,
    }
}

/// The resource result at `at`.
pub open spec fn resource_result_at(body: Seq<u8>, at: int) -> ResourceResultView {
    ResourceResultView {
        bucket_id: body.subrange(at, at + 16),
        tokens_deficit: wire::le_field(body, at + 24, 2) as u16,
        actual_rate: wire::le_field(body, at + 20, 4) as u32,
    }
}

/// Whether every guard passed.
pub open spec fn all_passed(results: Seq<GuardResultView>) -> bool {
    forall|i: int| 0 <= i < results.len() ==> (#[trigger] results[i]).passed
}

/// Whether every latency found is below its threshold.
pub open spec fn all_below(results: Seq<GuardResultView>) -> bool {
    forall|i: int|
        0 <= i < results.len() ==> (#[trigger] results[i]).current_latency_ms
            < results[i].threshold_ms
}

/// Whether every quantity was supplied.
pub open spec fn all_supplied(results: Seq<ResourceResultView>) -> bool {
    forall|i: int| 0 <= i < results.len() ==> (#[trigger] results[i]).tokens_deficit == 0
}

/// The result that the body of a response PDU holds; what follows the blocks
/// is not looked at.
pub open spec fn body_parsed(body: Seq<u8>, server_id: u64, steering_feedback: bool) -> Result<
    RateLimitResultView,
    CoreErrorView,
> {
    let guard_count = wire::le_field(body, 0, 2);
    let resource_count = wire::le_field(body, 2, 2);
    let guards_end = 4 + guard_count * 36;
    let guard_results = Seq::new(guard_count, |i: int| guard_result_at(body, 4 + i * 36));
    let resource_results = Seq::new(
        resource_count,
        |i: int| resource_result_at(body, guards_end + i * 28),
    );
    if body.len() < 4 {
        Err(CoreErrorView::Protocol("Buffer too small for counts"@))
    } else if body.len() < guards_end {
        Err(CoreErrorView::Protocol("Buffer too small for GuardBlock"@))
    } else if body.len() < guards_end + resource_count * 28 {
        Err(CoreErrorView::Protocol("Buffer too small for ResourceBlock"@))
    } else {
        Ok(
            RateLimitResultView {
                success: all_passed(guard_results) && all_supplied(resource_results),
                guard_results,
                resource_results,
                server_id,
                steering_feedback,
            },
        )
    }
}

/// The result that a response PDU holds.
pub open spec fn pdu_parsed(pdu: Seq<u8>, server_id: u64, steering_feedback: bool) -> Result<
    RateLimitResultView,
    CoreErrorView,
> {
    let found = wire::le_field(pdu, 0, 2);
    let size = wire::le_field(pdu, 2, 2);
    if pdu.len() < 8 {
        Err(CoreErrorView::Protocol("Buffer too small for PDU header"@))
    } else if found != protocol::PDU_RATE_RESPONSE {
        Err(
            CoreErrorView::Protocol("Unexpected PDU type: "@ + text::prefixed_hex_text(found)),
        )
    } else if size < 8 {
        Err(CoreErrorView::Protocol("Invalid PDU size"@))
    } else if pdu.len() < size {
        Err(CoreErrorView::Protocol("Incomplete PDU data"@))
    } else {
        body_parsed(pdu.subrange(8, size as int), server_id, steering_feedback)
    }
}

/// The result that a response packet holds. The server's identifier stands in
/// place of the key identifier.
pub open spec fn response_parsed(
    data: Seq<u8>,
    method: AuthMethod,
    cookie: Option<Seq<u8>>,
    key: Option<Seq<u8>>,
) -> Result<RateLimitResultView, CoreErrorView> {
    match tenant_error(data) {
        Some(e) => Err(e),
        None => match auth_parsed(
            data,
            wire::le_field(data, 2, 2) as int,
            method,
            cookie,
            key,
        ) {
            Err(e) => Err(e),
            Ok(pdu) => pdu_parsed(pdu, wire::le_field(data, 4, 8) as u64, data[36] != 0),
        },
    }
}

/// The server identifier in a packet's header.
pub open spec fn peeked_server_id(data: Seq<u8>) -> Option<u64> {
    if tenant_error(data) is None {
        Some(wire::le_field(data, 4, 8) as u64)
    } else {
        None
    }
}

/// The request identifier in a packet's header.
pub open spec fn peeked_request_id(data: Seq<u8>) -> Option<Seq<u8>> {
    if tenant_error(data) is None {
        Some(data.subrange(12, 28))
    } else {
        None
    }
}

/// Whether an outcome is the expected one, by content.
pub open spec fn is_result(
    outcome: Result<RateLimitResult, CoreError>,
    expected: Result<RateLimitResultView, CoreErrorView>,
) -> bool {
    match outcome {
        Ok(result) => expected == Ok::<_, CoreErrorView>(result@),
        Err(e) => expected == Err::<RateLimitResultView, _>(e@),
    }
}

/// A response that parses comes from the server that a look at its header
/// names.
pub proof fn lemma_parsed_server_is_peeked(
    data: Seq<u8>,
    method: AuthMethod,
    cookie: Option<Seq<u8>>,
    key: Option<Seq<u8>>,
)
    ensures
        response_parsed(data, method, cookie, key) matches Ok(result) ==> peeked_server_id(data)
            == Some(result.server_id),
{
}

/// A response only parses if it is authentic under the method: it carries the
/// cookie, or decrypts under the key.
pub proof fn lemma_parsed_is_authentic(
    data: Seq<u8>,
    method: AuthMethod,
    cookie: Option<Seq<u8>>,
    key: Option<Seq<u8>>,
)
    ensures
        response_parsed(data, method, cookie, key) is Ok ==> ({
            let pos = wire::le_field(data, 2, 2) as int;
            match method {
                AuthMethod::Unauthenticated => true,
                AuthMethod::Cookie(_) => cookie == Some(data.subrange(pos + 4, pos + 36)),
                AuthMethod::AesGcm(_) => key is Some && crypto::aes256_gcm_opened(
                    key->0,
                    data.subrange(pos + 4, pos + 16),
                    data.take(pos + 16),
                    data.skip(pos + 32) + data.subrange(pos + 16, pos + 32),
                ) is Some,
            }
        }),
{
}

/// A result is a success exactly if every guard stayed below its threshold and
/// no token was missing.
pub proof fn lemma_success_means_all_conditions(
    data: Seq<u8>,
    method: AuthMethod,
    cookie: Option<Seq<u8>>,
    key: Option<Seq<u8>>,
)
    ensures
        response_parsed(data, method, cookie, key) matches Ok(result) ==> (result.success
            <==> all_below(result.guard_results) && all_supplied(result.resource_results)),
{
    if let Ok(result) = response_parsed(data, method, cookie, key) {
        let pdu = auth_parsed(data, wire::le_field(data, 2, 2) as int, method, cookie, key)->Ok_0;
        let body = pdu.subrange(8, wire::le_field(pdu, 2, 2) as int);
        assert forall|i: int| 0 <= i < result.guard_results.len() implies (
        #[trigger] result.guard_results[i]).passed == (result.guard_results[i].current_latency_ms
            < result.guard_results[i].threshold_ms) by {
            wire::lemma_u32_field(body, 4 + i * 36 + 28);
            wire::lemma_u32_field(body, 4 + i * 36 + 32);
        }
        assert(result.success == (all_passed(result.guard_results) && all_supplied(
            result.resource_results,
        )));
    }
}

/// An outcome is the expected one exactly if it has the same content.
pub proof fn lemma_results_are_compared_by_content(
    outcome: Result<RateLimitResult, CoreError>,
    expected: Result<RateLimitResultView, CoreErrorView>,
)
    requires
        is_result(outcome, expected),
    ensures
        outcome is Ok <==> expected is Ok,
        outcome matches Ok(result) ==> expected->Ok_0 == result@,
        outcome matches Err(e) ==> expected->Err_0 == e@,
{
}

/// What a response body says. It has as many results as it counts, or is
/// refused for being too short. Each guard result tells the tracker, the
/// threshold and the latency that the server found, as they stand in its block,
/// and the guard passed exactly if that latency is below that threshold. Each
/// resource result tells the counter, the tokens that are missing and the
/// tokens consumed. The whole is a success exactly if every latency is below
/// its threshold and no token is missing.
#[verifier::spinoff_prover]
pub proof fn lemma_response_says_what_the_server_found(
    body: Seq<u8>,
    server_id: u64,
    steering_feedback: bool,
)
    ensures
        ({
            let guards = wire::le_field(body, 0, 2);
            let resources = wire::le_field(body, 2, 2);
            let parsed = body_parsed(body, server_id, steering_feedback);
            &&& parsed is Ok <==> body.len() >= 4 && body.len() >= 4 + 36 * guards + 28 * resources
            &&& parsed matches Err(e) ==> e is Protocol
            &&& parsed matches Ok(result) ==> {
                &&& result.server_id == server_id
                &&& result.steering_feedback == steering_feedback
                &&& result.guard_results.len() == guards
                &&& result.resource_results.len() == resources
                &&& forall|i: int|
                    0 <= i < guards ==> {
                        let (found, at) = (#[trigger] result.guard_results[i], 4 + 36 * i);
                        &&& found.latency_tracker_id == body.subrange(at, at + 16)
                        &&& found.threshold_ms == wire::le_field(body, at + 28, 4)
                        &&& found.current_latency_ms == wire::le_field(body, at + 32, 4)
                        &&& found.passed <==> wire::le_field(body, at + 32, 4) < wire::le_field(
                            body,
                            at + 28,
                            4,
                        )
                    }
                &&& forall|i: int|
                    0 <= i < resources ==> {
                        let (found, at) = (
                            #[trigger] result.resource_results[i],
                            4 + 36 * guards + 28 * i,
                        );
                        &&& found.bucket_id == body.subrange(at, at + 16)
                        &&& found.actual_rate == wire::le_field(body, at + 20, 4)
                        &&& found.tokens_deficit == wire::le_field(body, at + 24, 2)
                    }
                &&& result.success <==> (forall|i: int|
                    0 <= i < guards ==> (#[trigger] result.guard_results[i]).current_latency_ms
                        < result.guard_results[i].threshold_ms) && (forall|i: int|
                    0 <= i < resources ==> (#[trigger] result.resource_results[i]).tokens_deficit
                        == 0)
            }
        }),
{
    let guards = wire::le_field(body, 0, 2);
    let resources = wire::le_field(body, 2, 2);
    let parsed = body_parsed(body, server_id, steering_feedback);
    if let Ok(result) = parsed {
        assert forall|i: int| 0 <= i < guards implies {
            let (found, at) = (#[trigger] result.guard_results[i], 4 + 36 * i);
            &&& found.latency_tracker_id == body.subrange(at, at + 16)
            &&& found.threshold_ms == wire::le_field(body, at + 28, 4)
            &&& found.current_latency_ms == wire::le_field(body, at + 32, 4)
            &&& found.passed <==> found.current_latency_ms < found.threshold_ms
        } by {
            wire::lemma_u32_field(body, 4 + 36 * i + 28);
            wire::lemma_u32_field(body, 4 + 36 * i + 32);
        }
        assert forall|i: int| 0 <= i < resources implies {
            let (found, at) = (
                #[trigger] result.resource_results[i],
                4 + 36 * guards + 28 * i,
            );
            &&& found.bucket_id == body.subrange(at, at + 16)
            &&& found.actual_rate == wire::le_field(body, at + 20, 4)
            &&& found.tokens_deficit == wire::le_field(body, at + 24, 2)
        } by {
            wire::lemma_u32_field(body, 4 + 36 * guards + 28 * i + 20);
            wire::lemma_u16_field(body, 4 + 36 * guards + 28 * i + 24);
        }
        assert(result.success == (all_passed(result.guard_results) && all_supplied(
            result.resource_results,
        )));
    }
}

/// A body that a server wrote block by block is read as those blocks: each
/// guard result has the tracker, the threshold and the latency of its guard
/// block, each resource result the counter, the missing tokens and the consumed
/// tokens of its resource block. What follows the blocks does not matter.
#[verifier::spinoff_prover]
pub proof fn lemma_written_blocks_are_read(
    body: Seq<u8>,
    guards: Seq<GuardBlock>,
    resources: Seq<ResourceBlock>,
    server_id: u64,
    steering_feedback: bool,
)
    requires
        body.len() >= 4 + 36 * guards.len() + 28 * resources.len(),
        wire::le_field(body, 0, 2) == guards.len(),
        wire::le_field(body, 2, 2) == resources.len(),
        forall|i: int|
            0 <= i < guards.len() ==> body.subrange(4 + 36 * i, 4 + 36 * i + 36) == (
            #[trigger] guards[i]).on_wire(),
        forall|i: int|
            0 <= i < resources.len() ==> body.subrange(
                4 + 36 * guards.len() + 28 * i,
                4 + 36 * guards.len() + 28 * i + 28,
            ) == (#[trigger] resources[i]).on_wire(),
    ensures
        body_parsed(body, server_id, steering_feedback) matches Ok(result) && {
            &&& result.guard_results.len() == guards.len()
            &&& result.resource_results.len() == resources.len()
            &&& forall|i: int|
                0 <= i < guards.len() ==> {
                    let found = #[trigger] result.guard_results[i];
                    &&& found.latency_tracker_id == guards[i].latency_tracker_id@
                    &&& found.threshold_ms == guards[i].latency_threshold
                    &&& found.current_latency_ms == guards[i].current_latency
                    &&& found.passed <==> guards[i].current_latency < guards[i].latency_threshold
                }
            &&& forall|i: int|
                0 <= i < resources.len() ==> {
                    let found = #[trigger] result.resource_results[i];
                    &&& found.bucket_id == resources[i].bucket_id@
                    &&& found.tokens_deficit == resources[i].tokens_requested
                    &&& found.actual_rate == resources[i].rate_limit
                }
            &&& result.success <==> (forall|i: int|
                0 <= i < guards.len() ==> (#[trigger] guards[i]).current_latency
                    < guards[i].latency_threshold) && (forall|i: int|
                0 <= i < resources.len() ==> (#[trigger] resources[i]).tokens_requested == 0)
        },
{
    lemma_response_says_what_the_server_found(body, server_id, steering_feedback);
    let result = body_parsed(body, server_id, steering_feedback)->Ok_0;
    assert forall|i: int| 0 <= i < guards.len() implies {
        let found = #[trigger] result.guard_results[i];
        &&& found.latency_tracker_id == guards[i].latency_tracker_id@
        &&& found.threshold_ms == guards[i].latency_threshold
        &&& found.current_latency_ms == guards[i].current_latency
        &&& found.passed <==> guards[i].current_latency < guards[i].latency_threshold
    } by {
        let at = 4 + 36 * i;
        let bytes = guards[i].on_wire();
        protocol::lemma_guard_block_layout(guards[i]);
        assert(body.subrange(at, at + 16) =~= bytes.subrange(0, 16));
        assert(body.subrange(at + 28, at + 32) =~= bytes.subrange(28, 32));
        assert(body.subrange(at + 32, at + 36) =~= bytes.subrange(32, 36));
    }
    assert forall|i: int| 0 <= i < resources.len() implies {
        let found = #[trigger] result.resource_results[i];
        &&& found.bucket_id == resources[i].bucket_id@
        &&& found.tokens_deficit == resources[i].tokens_requested
        &&& found.actual_rate == resources[i].rate_limit
    } by {
        let at = 4 + 36 * guards.len() + 28 * i;
        let bytes = resources[i].on_wire();
        protocol::lemma_resource_block_layout(resources[i]);
        assert(body.subrange(at, at + 16) =~= bytes.subrange(0, 16));
        assert(body.subrange(at + 20, at + 24) =~= bytes.subrange(20, 24));
        assert(body.subrange(at + 24, at + 26) =~= bytes.subrange(24, 26));
    }
    assert(forall|i: int|
        0 <= i < guards.len() ==> (#[trigger] guards[i]).current_latency
            == result.guard_results[i].current_latency_ms);
    assert(forall|i: int|
        0 <= i < resources.len() ==> (#[trigger] resources[i]).tokens_requested
            == result.resource_results[i].tokens_deficit);
}

/// A response PDU begins with its type and its size. One of another type, or
/// whose size is not that of a PDU within the packet, breaks the protocol; of
/// any other the body is read that the size says, and nothing behind it.
pub proof fn lemma_response_pdu_is_typed_and_sized(
    pdu: Seq<u8>,
    body: Seq<u8>,
    server_id: u64,
    steering_feedback: bool,
)
    ensures
        pdu.len() >= 8 && wire::le_field(pdu, 0, 2) == 0x5252 && wire::le_field(pdu, 2, 2) == 8
            + body.len() && pdu.len() >= 8 + body.len() && pdu.subrange(8, 8 + body.len() as int)
            == body ==> pdu_parsed(pdu, server_id, steering_feedback) == body_parsed(
            body,
            server_id,
            steering_feedback,
        ),
        pdu.len() < 8 || wire::le_field(pdu, 0, 2) != 0x5252 || wire::le_field(pdu, 2, 2) < 8
            || wire::le_field(pdu, 2, 2) > pdu.len() ==> (pdu_parsed(
            pdu,
            server_id,
            steering_feedback,
        ) matches Err(e) && e is Protocol),
{
}

/// Whether an authentication record of the method stands at `pos`, proves the
/// client's credential, and has `pdu` behind it. A cookie must be the client's
/// own, and an encrypted PDU must be authentic under the client's key, all that
/// stands before the tag included.
pub open spec fn proven_at(
    data: Seq<u8>,
    pos: int,
    method: AuthMethod,
    cookie: Option<Seq<u8>>,
    key: Option<Seq<u8>>,
    pdu: Seq<u8>,
) -> bool {
    let kind = wire::le_field(data, pos, 2);
    let size = wire::le_field(data, pos + 2, 2);
    &&& data.len() >= pos + 4
    &&& match method {
        AuthMethod::Unauthenticated => kind == 0x414E && size == 4 && pdu == data.skip(pos + 4),
        AuthMethod::Cookie(_) => kind == 0x4143 && size == 36 && data.len() >= pos + 36 && cookie
            == Some(data.subrange(pos + 4, pos + 36)) && pdu == data.skip(pos + 36),
        AuthMethod::AesGcm(_) => kind == 0x4541 && size == 32 && data.len() >= pos + 32
            && key is Some && crypto::aes256_gcm_opened(
            key->0,
            data.subrange(pos + 4, pos + 16),
            data.take(pos + 16),
            data.skip(pos + 32) + data.subrange(pos + 16, pos + 32),
        ) == Some(pdu),
    }
}

/// The PDU behind an authentication record is handed out exactly if the record
/// is the method's and proves the client's credential.
pub proof fn lemma_only_proven_pdus_are_handed_out(
    data: Seq<u8>,
    pos: int,
    method: AuthMethod,
    cookie: Option<Seq<u8>>,
    key: Option<Seq<u8>>,
    pdu: Seq<u8>,
)
    requires
        pos >= 0,
    ensures
        auth_parsed(data, pos, method, cookie, key) == Ok::<_, CoreErrorView>(pdu) <==> proven_at(
            data,
            pos,
            method,
            cookie,
            key,
            pdu,
        ),
{
}

/// Whether a packet is laid out as a response under a method, with `pdu` behind
/// the authentication: a tenant header of at least forty bytes, then the
/// authentication record that the method asks for.
pub open spec fn laid_out(
    data: Seq<u8>,
    method: AuthMethod,
    cookie: Option<Seq<u8>>,
    key: Option<Seq<u8>>,
    pdu: Seq<u8>,
) -> bool {
    let pos = wire::le_field(data, 2, 2) as int;
    &&& wire::le_field(data, 0, 2) == 0x4C52
    &&& pos >= 40
    &&& proven_at(data, pos, method, cookie, key, pdu)
}

/// A packet that is laid out as a response is read: its PDU is what stands, or
/// was encrypted, behind the authentication; the server is the one that the
/// header names, and its advice on the source port is the header's flag.
pub proof fn lemma_response_packet_is_read(
    data: Seq<u8>,
    method: AuthMethod,
    cookie: Option<Seq<u8>>,
    key: Option<Seq<u8>>,
    pdu: Seq<u8>,
    server_id: u64,
)
    requires
        laid_out(data, method, cookie, key, pdu),
        wire::le_field(data, 4, 8) == server_id,
    ensures
        response_parsed(data, method, cookie, key) == pdu_parsed(pdu, server_id, data[36] != 0),
{
}

/// Only a packet that is laid out as a response is read, and whatever else
/// comes in breaks the protocol or is not authentic. Another cookie than the
/// client's is not authentic; neither is another method of authentication than
/// the client's.
pub proof fn lemma_other_packets_are_refused(
    data: Seq<u8>,
    method: AuthMethod,
    cookie: Option<Seq<u8>>,
    key: Option<Seq<u8>>,
)
    ensures
        response_parsed(data, method, cookie, key) is Ok ==> exists|pdu: Seq<u8>|
            #[trigger] laid_out(data, method, cookie, key, pdu),
        response_parsed(data, method, cookie, key) matches Err(e) ==> e is Protocol || e is Auth,
        ({
            let pos = wire::le_field(data, 2, 2) as int;
            let kind = wire::le_field(data, pos, 2);
            let size = wire::le_field(data, pos + 2, 2);
            let framed = data.len() >= pos + 4 && wire::le_field(data, 0, 2) == 0x4C52 && pos >= 40
                && size >= 4 && data.len() >= pos + size;
            let wanted: nat = match method {
                AuthMethod::Unauthenticated => 0x414E,
                AuthMethod::Cookie(_) => 0x4143,
                AuthMethod::AesGcm(_) => 0x4541,
            };
            &&& framed && kind != wanted ==> (response_parsed(data, method, cookie, key) matches Err(
                e,
            ) && e is Auth)
            &&& framed && method is Cookie && kind == wanted && size == 36 && cookie != Some(
                data.subrange(pos + 4, pos + 36),
            ) ==> (response_parsed(data, method, cookie, key) matches Err(e) && e is Auth)
            &&& framed && method is AesGcm && kind == wanted && size == 32 && key is Some
                && crypto::aes256_gcm_opened(
                key->0,
                data.subrange(pos + 4, pos + 16),
                data.take(pos + 16),
                data.skip(pos + 32) + data.subrange(pos + 16, pos + 32),
            ) is None ==> (response_parsed(data, method, cookie, key) matches Err(e)
                && e is Protocol)
        }),
{
    if response_parsed(data, method, cookie, key) is Ok {
        let pos = wire::le_field(data, 2, 2) as int;
        let pdu = auth_parsed(data, pos, method, cookie, key)->Ok_0;
        assert(laid_out(data, method, cookie, key, pdu));
    }
}

/// A look at the header finds the server and the request that a packet names,
/// exactly if the packet begins with a whole tenant header.
pub proof fn lemma_header_is_peeked(data: Seq<u8>)
    ensures
        ({
            let whole = data.len() >= 4 && wire::le_field(data, 0, 2) == 0x4C52 && wire::le_field(
                data,
                2,
                2,
            ) >= 40 && data.len() >= wire::le_field(data, 2, 2);
            &&& peeked_server_id(data) is Some <==> whole
            &&& peeked_request_id(data) is Some <==> whole
            &&& peeked_server_id(data) matches Some(id) ==> id == wire::le_field(data, 4, 8)
            &&& peeked_request_id(data) matches Some(id) ==> id == data.subrange(12, 28)
        }),
{
    if data.len() >= 12 {
        wire::lemma_u64_field(data, 4);
    }
}

/// The text of a type other than the one expected.
fn type_mismatch(head: &str, expected: u16, found: u16) -> (message: String)
    ensures
        message@ == type_mismatch_text(head@, expected as nat, found as nat),
{
    let mut message: String = head.to_owned();
    let wanted: String = text::prefixed_hex(expected as u64);
    message.append(wanted.as_str());
    message.append(", got ");
    let got: String = text::prefixed_hex(found as u64);
    message.append(got.as_str());
    message
}

/// A text followed by a number.
fn numbered(head: &str, number: u64) -> (message: String)
    ensures
        message@ == head@ + text::decimal_text(number as nat),
{
    let mut message: String = head.to_owned();
    let digits: String = text::decimal(number);
    message.append(digits.as_str());
    message
}

/// The parts of a packet that decryption needs.
pub struct SealedPdu<'a> {
    /// The nonce.
    pub nonce: [u8; 12],
    /// The authentication tag.
    pub auth_tag: [u8; 16],
    /// The associated data: everything up to the nonce, the nonce with it.
    pub aad: &'a [u8],
    /// The encrypted PDU.
    pub encrypted: &'a [u8],
}

impl<'a> SealedPdu<'a> {
    /// The parts of a packet whose authentication TLV is at `pos`.
    pub fn read(data: &'a [u8], pos: usize) -> (sealed: Self)
        requires
            pos + 32 <= data.len(),
        ensures
            sealed.nonce@ == data@.subrange(pos + 4, pos + 16),
            sealed.auth_tag@ == data@.subrange(pos + 16, pos + 32),
            sealed.aad@ == data@.take(pos + 16),
            sealed.encrypted@ == data@.skip(pos + 32),
    {
        let sealed: SealedPdu<'a> = SealedPdu {
            nonce: wire::read_array::<12>(data, pos + 4),
            auth_tag: wire::read_array::<16>(data, pos + 16),
            aad: slice_subrange(data, 0, pos + 16),
            encrypted: slice_subrange(data, pos + 32, data.len()),
        };
        assert(sealed.aad@ =~= data@.take(pos + 16));
        assert(sealed.encrypted@ =~= data@.skip(pos + 32));
        sealed
    }
}

impl CoreClient {
    /// Reads the tenant header; returns it with the position behind it.
    pub fn parse_tenant_header(data: &[u8]) -> (parsed: Result<(TenantHeader, usize), CoreError>)
        ensures
            match parsed {
                Ok(found) => {
                    &&& tenant_error(data@) is None
                    &&& found.0.is_at_front(data@)
                    &&& found.1 == wire::le_field(data@, 2, 2)
                    &&& protocol::TENANT_TLV_LEN <= found.1 <= data@.len()
                },
                Err(e) => tenant_error(data@) == Some(e@),
            },
    {
        if data.len() < 4 {
            return Err(CoreError::Protocol("Buffer too small for Tenant TLV header".to_owned()));
        }
        let tenant_tlv_type: u16 = wire::read_u16(data, 0);
        if tenant_tlv_type != protocol::TLV_TENANT {
            return Err(
                CoreError::Protocol(
                    type_mismatch(
                        "Expected Tenant TLV type ",
                        protocol::TLV_TENANT,
                        tenant_tlv_type,
                    ),
                ),
            );
        }
        let tenant_tlv_size: usize = wire::read_u16(data, 2) as usize;
        if tenant_tlv_size < protocol::TENANT_TLV_LEN {
            return Err(CoreError::Protocol("Tenant TLV too small".to_owned()));
        }
        if data.len() < tenant_tlv_size {
            return Err(CoreError::Protocol("Buffer too small for Tenant TLV body".to_owned()));
        }
        match TenantHeader::read_from_buffer(data) {
            Ok(header) => Ok((header, tenant_tlv_size)),
            Err(e) => Err(CoreError::Protocol(e.to_owned())),
        }
    }

    /// Reads the authentication TLV at `pos` and hands out the PDU behind it.
    pub fn parse_auth_tlv<'a>(
        data: &'a [u8],
        pos: usize,
        auth_method: &AuthMethod,
        cookie_hash_cache: Option<[u8; 32]>,
        aes_key_cache: Option<[u8; 32]>,
    ) -> (parsed: Result<PduData<'a>, CoreError>)
        ensures
            match parsed {
                Ok(pdu) => auth_parsed(
                    data@,
                    pos as int,
                    *auth_method,
                    secret_bytes(cookie_hash_cache),
                    secret_bytes(aes_key_cache),
                ) == Ok::<_, CoreErrorView>(pdu.content()),
                Err(e) => auth_parsed(
                    data@,
                    pos as int,
                    *auth_method,
                    secret_bytes(cookie_hash_cache),
                    secret_bytes(aes_key_cache),
                ) == Err::<Seq<u8>, _>(e@),
            },
    {
        if data.len() < pos || data.len() - pos < 4 {
            return Err(CoreError::Protocol("Buffer too small for Auth TLV header".to_owned()));
        }
        let auth_tlv_type: u16 = wire::read_u16(data, pos);
        let auth_tlv_size: usize = wire::read_u16(data, pos + 2) as usize;
        if auth_tlv_size < 4 {
            return Err(CoreError::Protocol("Invalid Auth TLV size".to_owned()));
        }
        if data.len() - pos < auth_tlv_size {
            return Err(CoreError::Protocol("Buffer too small for Auth TLV body".to_owned()));
        }
        let expected_auth_type: u16 = match auth_method {
            AuthMethod::Unauthenticated => protocol::TLV_AUTH_NONE,
            AuthMethod::Cookie(_) => protocol::TLV_AUTH_COOKIE,
            AuthMethod::AesGcm(_) => protocol::TLV_AUTH_AES,
        };
        if auth_tlv_type != expected_auth_type {
            return Err(
                CoreError::Auth(
                    type_mismatch(
                        "Auth type mismatch: expected ",
                        expected_auth_type,
                        auth_tlv_type,
                    ),
                ),
            );
        }
        let pdu_start: usize = pos + auth_tlv_size;
        let behind: &'a [u8] = slice_subrange(data, pdu_start, data.len());
        assert(behind@ =~= data@.skip(pdu_start as int));
        match auth_method {
            AuthMethod::Unauthenticated => {
                if auth_tlv_size != 4 {
                    return Err(
                        CoreError::Protocol(
                            numbered("Invalid size for AUTH_NONE TLV: ", auth_tlv_size as u64),
                        ),
                    );
                }
                Ok(PduData::Borrowed(behind))
            },
            AuthMethod::Cookie(_) => {
                if auth_tlv_size != 36 {
                    return Err(
                        CoreError::Protocol(
                            numbered("Invalid size for AUTH_COOKIE TLV: ", auth_tlv_size as u64),
                        ),
                    );
                }
                let found: &[u8] = slice_subrange(data, pos + 4, pos + 36);
                match cookie_hash_cache {
                    None => Err(CoreError::Auth("Missing cookie hash cache".to_owned())),
                    Some(expected) => if wire::same_bytes(found, &expected) {
                        Ok(PduData::Borrowed(behind))
                    } else {
                        Err(CoreError::Auth("Cookie auth mismatch".to_owned()))
                    },
                }
            },
            AuthMethod::AesGcm(_) => {
                if auth_tlv_size != 32 {
                    return Err(
                        CoreError::Protocol(
                            numbered("Invalid size for AUTH_AES TLV: ", auth_tlv_size as u64),
                        ),
                    );
                }
                let key: [u8; 32] = match aes_key_cache {
                    Some(k) => k,
                    None => return Err(CoreError::Auth("Missing AES key cache".to_owned())),
                };
                let sealed: SealedPdu<'a> = SealedPdu::read(data, pos);
                CoreClient::pdu_of_opened(
                    decrypt_pdu(sealed.encrypted, &key, &sealed.nonce, &sealed.auth_tag, sealed.aad),
                )
            },
        }
    }

    /// The PDU, once it was decrypted.
    pub fn pdu_of_opened<'a>(opened: Result<Vec<u8>, NotAuthentic>) -> (pdu: Result<
        PduData<'a>,
        CoreError,
    >)
        ensures
            match (opened, pdu) {
                (Ok(bytes), Ok(p)) => p.content() == bytes@,
                (Err(_), Err(e)) => e@ == CoreErrorView::Protocol("AES decryption failed"@),
                _ => false,
            },
    {
        match opened {
            Ok(bytes) => Ok(PduData::Owned(bytes)),
            Err(_) => Err(CoreError::Protocol("AES decryption failed".to_owned())),
        }
    }

    /// Reads the blocks of a response body.
    fn parse_rate_response_body(pdu_body: &[u8], server_id: u64, steering_feedback: bool) -> (parsed:
        Result<RateLimitResult, CoreError>)
        ensures
            is_result(parsed, body_parsed(pdu_body@, server_id, steering_feedback)),
    {
        if pdu_body.len() < 4 {
            return Err(CoreError::Protocol("Buffer too small for counts".to_owned()));
        }
        let guard_count: usize = wire::read_u16(pdu_body, 0) as usize;
        let resource_count: usize = wire::read_u16(pdu_body, 2) as usize;
        let ghost guards_end = 4 + guard_count * 36;
        let mut pos: usize = 4;
        let mut success: bool = true;
        let mut guard_results: Vec<GuardResult> = Vec::new();
        let mut i: usize = 0;
        while i < guard_count
            invariant
                i <= guard_count <= 65_535,
                guard_count == wire::le_field(pdu_body@, 0, 2),
                pos == 4 + i * 36,
                pos <= pdu_body@.len(),
                guard_results@.len() == i,
                forall|j: int|
                    0 <= j < i ==> (#[trigger] guard_results@[j])@ == guard_result_at(
                        pdu_body@,
                        4 + j * 36,
                    ),
                success == forall|j: int| 0 <= j < i ==> (#[trigger] guard_results@[j]).passed,
            decreases guard_count - i,
        {
            if pdu_body.len() - pos < protocol::GUARD_BLOCK_WIRE_LEN {
                return Err(CoreError::Protocol("Buffer too small for GuardBlock".to_owned()));
            }
            let tail: &[u8] = slice_subrange(pdu_body, pos, pdu_body.len());
            let block: GuardBlock = match GuardBlock::read_from_buffer(tail) {
                Ok(b) => b,
                Err(e) => return Err(CoreError::Protocol(e.to_owned())),
            };
            let result: GuardResult = GuardResult {
                latency_tracker_id: block.latency_tracker_id,
                threshold_ms: block.latency_threshold,
                current_latency_ms: block.current_latency,
                passed: block.current_latency < block.latency_threshold,
            };
            proof {
                assert(tail@.subrange(0, 16) =~= pdu_body@.subrange(pos as int, pos + 16));
                assert(tail@.subrange(28, 32) =~= pdu_body@.subrange(pos + 28, pos + 32));
                assert(tail@.subrange(32, 36) =~= pdu_body@.subrange(pos + 32, pos + 36));
            }
            let ghost before = guard_results@;
            success = success && result.passed;
            guard_results.push(result);
            assert forall|j: int| 0 <= j < i + 1 implies (#[trigger] guard_results@[j])@
                == guard_result_at(pdu_body@, 4 + j * 36) by {
                if j < i {
                    assert(guard_results@[j] == before[j]);
                }
            }
            assert(success == forall|j: int|
                0 <= j < i + 1 ==> (#[trigger] guard_results@[j]).passed) by {
                assert(guard_results@[i as int] == result);
                assert(forall|j: int| 0 <= j < i ==> #[trigger] guard_results@[j] == before[j]);
                assert(forall|j: int| 0 <= j < i ==> #[trigger] before[j] == guard_results@[j]);
            }
            pos = pos + protocol::GUARD_BLOCK_WIRE_LEN;
            i = i + 1;
        }
        let ghost guards_passed = success;
        let mut resource_results: Vec<ResourceResult> = Vec::new();
        i = 0;
        while i < resource_count
            invariant
                i <= resource_count <= 65_535,
                guard_count <= 65_535,
                guards_end == 4 + guard_count * 36,
                guard_count == wire::le_field(pdu_body@, 0, 2),
                resource_count == wire::le_field(pdu_body@, 2, 2),
                pos == guards_end + i * 28,
                pos <= pdu_body@.len(),
                resource_results@.len() == i,
                forall|j: int|
                    0 <= j < i ==> (#[trigger] resource_results@[j])@ == resource_result_at(
                        pdu_body@,
                        guards_end + j * 28,
                    ),
                success == (guards_passed && forall|j: int|
                    0 <= j < i ==> (#[trigger] resource_results@[j]).tokens_deficit == 0),
            decreases resource_count - i,
        {
            if pdu_body.len() - pos < protocol::RESOURCE_BLOCK_WIRE_LEN {
                return Err(CoreError::Protocol("Buffer too small for ResourceBlock".to_owned()));
            }
            let tail: &[u8] = slice_subrange(pdu_body, pos, pdu_body.len());
            let block: ResourceBlock = match ResourceBlock::read_from_buffer(tail) {
                Ok(b) => b,
                Err(e) => return Err(CoreError::Protocol(e.to_owned())),
            };
            let result: ResourceResult = ResourceResult {
                bucket_id: block.bucket_id,
                tokens_deficit: block.tokens_requested,
                actual_rate: block.rate_limit,
            };
            proof {
                assert(tail@.subrange(0, 16) =~= pdu_body@.subrange(pos as int, pos + 16));
                assert(tail@.subrange(20, 24) =~= pdu_body@.subrange(pos + 20, pos + 24));
                assert(tail@.subrange(24, 26) =~= pdu_body@.subrange(pos + 24, pos + 26));
            }
            let ghost before = resource_results@;
            success = success && result.tokens_deficit == 0;
            resource_results.push(result);
            assert forall|j: int| 0 <= j < i + 1 implies (#[trigger] resource_results@[j])@
                == resource_result_at(pdu_body@, guards_end + j * 28) by {
                if j < i {
                    assert(resource_results@[j] == before[j]);
                }
            }
            assert(success == (guards_passed && forall|j: int|
                0 <= j < i + 1 ==> (#[trigger] resource_results@[j]).tokens_deficit == 0)) by {
                assert(resource_results@[i as int] == result);
                assert(forall|j: int| 0 <= j < i ==> #[trigger] resource_results@[j] == before[j]);
                assert(forall|j: int| 0 <= j < i ==> #[trigger] before[j] == resource_results@[j]);
            }
            pos = pos + protocol::RESOURCE_BLOCK_WIRE_LEN;
            i = i + 1;
        }
        let result: RateLimitResult = RateLimitResult {
            success,
            guard_results,
            resource_results,
            server_id,
            steering_feedback,
        };
        proof {
            let expected = body_parsed(pdu_body@, server_id, steering_feedback)->Ok_0;
            assert(result@.guard_results =~= expected.guard_results);
            assert(result@.resource_results =~= expected.resource_results);
            assert(guards_passed == all_passed(expected.guard_results)) by {
                assert(forall|j: int|
                    0 <= j < guard_count ==> (#[trigger] guard_results@[j]).passed
                        == expected.guard_results[j].passed);
                assert(forall|j: int|
                    0 <= j < guard_count ==> (#[trigger] expected.guard_results[j]).passed
                        == guard_results@[j].passed);
            }
            assert(success == (guards_passed && all_supplied(expected.resource_results))) by {
                assert(forall|j: int|
                    0 <= j < resource_count ==> (#[trigger] resource_results@[j]).tokens_deficit
                        == expected.resource_results[j].tokens_deficit);
                assert(forall|j: int|
                    0 <= j < resource_count ==> (#[trigger] expected.resource_results[j])
                        .tokens_deficit == resource_results@[j].tokens_deficit);
            }
        }
        Ok(result)
    }

    /// Reads a response PDU.
    pub fn parse_rate_response_pdu(pdu_data: &[u8], server_id: u64, steering_feedback: bool) -> (
    parsed: Result<RateLimitResult, CoreError>)
        ensures
            is_result(parsed, pdu_parsed(pdu_data@, server_id, steering_feedback)),
    {
        if pdu_data.len() < 8 {
            return Err(CoreError::Protocol("Buffer too small for PDU header".to_owned()));
        }
        let pdu_type: u16 = wire::read_u16(pdu_data, 0);
        if pdu_type != protocol::PDU_RATE_RESPONSE {
            let mut message: String = "Unexpected PDU type: ".to_owned();
            let found: String = text::prefixed_hex(pdu_type as u64);
            message.append(found.as_str());
            return Err(CoreError::Protocol(message));
        }
        let pdu_size: usize = wire::read_u16(pdu_data, 2) as usize;
        if pdu_size < 8 {
            return Err(CoreError::Protocol("Invalid PDU size".to_owned()));
        }
        if pdu_data.len() < pdu_size {
            return Err(CoreError::Protocol("Incomplete PDU data".to_owned()));
        }
        CoreClient::parse_rate_response_body(
            slice_subrange(pdu_data, 8, pdu_size),
            server_id,
            steering_feedback,
        )
    }

    /// Reads a response packet under an authentication method.
    pub fn parse_rate_response_with_auth(
        data: &[u8],
        auth_method: &AuthMethod,
        cookie_hash_cache: Option<[u8; 32]>,
        aes_key_cache: Option<[u8; 32]>,
    ) -> (parsed: Result<RateLimitResult, CoreError>)
        ensures
            is_result(
                parsed,
                response_parsed(
                    data@,
                    *auth_method,
                    secret_bytes(cookie_hash_cache),
                    secret_bytes(aes_key_cache),
                ),
            ),
    {
        let (tenant_header, pos) = match CoreClient::parse_tenant_header(data) {
            Ok(found) => found,
            Err(e) => return Err(e),
        };
        let server_id: u64 = tenant_header.key_id;
        let steering_feedback: bool = tenant_header.steering_feedback != 0;
        let pdu_data: PduData<'_> = match CoreClient::parse_auth_tlv(
            data,
            pos,
            auth_method,
            cookie_hash_cache,
            aes_key_cache,
        ) {
            Ok(pdu) => pdu,
            Err(e) => return Err(e),
        };
        CoreClient::parse_rate_response_pdu(pdu_data.as_slice(), server_id, steering_feedback)
    }

    /// Reads a response packet under the client's own method.
    pub fn parse_rate_response(&self, data: &[u8]) -> (parsed: Result<RateLimitResult, CoreError>)
        ensures
            is_result(
                parsed,
                response_parsed(
                    data@,
                    self@.auth_method,
                    secret_bytes(client::cookie_of(self@.auth_method)),
                    secret_bytes(client::aes_key_of(self@.auth_method)),
                ),
            ),
    {
        CoreClient::parse_rate_response_with_auth(
            data,
            &self.auth_method(),
            self.cookie_hash(),
            self.aes_key(),
        )
    }

    /// Whether a packet starts with a whole tenant header.
    fn has_tenant_header(data: &[u8]) -> (has: bool)
        ensures
            has == (tenant_error(data@) is None),
    {
        if data.len() < 4 {
            return false;
        }
        let tlv_type: u16 = wire::read_u16(data, 0);
        let tlv_size: usize = wire::read_u16(data, 2) as usize;
        tlv_type == protocol::TLV_TENANT && tlv_size >= protocol::TENANT_TLV_LEN && data.len()
            >= tlv_size
    }

    /// The server identifier in a packet's header.
    pub fn peek_server_id(data: &[u8]) -> (server_id: Option<u64>)
        ensures
            server_id == peeked_server_id(data@),
    {
        if CoreClient::has_tenant_header(data) {
            Some(wire::read_u64(data, 4))
        } else {
            None
        }
    }

    /// The request identifier in a packet's header.
    pub fn peek_request_id(data: &[u8]) -> (request_id: Option<[u8; 16]>)
        ensures
            match request_id {
                Some(id) => peeked_request_id(data@) == Some(id@),
                None => peeked_request_id(data@) is None,
            },
    {
        if CoreClient::has_tenant_header(data) {
            Some(wire::read_array::<16>(data, 12))
        } else {
            None
        }
    }
}

} // verus!
