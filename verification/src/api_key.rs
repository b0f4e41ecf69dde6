//! The validated API key of the public interface.

use std::str::FromStr;
use std::sync::Arc;

use vstd::prelude::*;

use crate::api_key_codec;
use crate::api_key_codec::{decode_api_key, ApiKeyLimits, DecodeError};
use crate::config::AuthMethod;
use crate::text;
use crate::wire;

verus! {

struct ApiKeyInner {
    key_id: u64,
    auth_method: AuthMethod,
    limits: ApiKeyLimits,
}

/// A validated, opaque Ratelimitly API key.
///
/// Parse an encoded credential with [`str::parse`]. The encoded value and raw
/// authentication material are never exposed through this type's public
/// interface or its [`debug_text`](ApiKey::debug_text).
pub struct ApiKey {
    inner: Arc<ApiKeyInner>,
}

/// The content of an [`ApiKey`].
pub ghost struct ApiKeyView {
    pub key_id: u64,
    pub auth_method: AuthMethod,
    pub limits: ApiKeyLimits,
}

impl View for ApiKey {
    type V = ApiKeyView;

    closed spec fn view(&self) -> ApiKeyView {
        ApiKeyView {
            key_id: self.inner.key_id,
            auth_method: self.inner.auth_method,
            limits: self.inner.limits,
        }
    }
}

/// Whether `key` is what an encoded text denotes: the text decodes, carries
/// limits, and names an authentication method of requests.
pub open spec fn is_key_of(key: ApiKeyView, encoded: Seq<char>) -> bool {
    match api_key_codec::decoded_api_key(encoded) {
        Ok(decoded) => {
            &&& decoded.limits == Some(key.limits)
            &&& decoded.key_id == key.key_id
            &&& match key.auth_method {
                AuthMethod::Unauthenticated => decoded.auth_method == "none"@,
                AuthMethod::Cookie(secret) => decoded.auth_method == "cookie"@
                    && decoded.auth_secret == secret@,
                AuthMethod::AesGcm(secret) => decoded.auth_method == "aes"@ && decoded.auth_secret
                    == secret@,
            }
        },
        Err(_) => false,
    }
}

/// The error that a text is refused with, if it is.
pub open spec fn key_error(encoded: Seq<char>) -> Option<ApiKeyError> {
    match api_key_codec::decoded_api_key(encoded) {
        Ok(decoded) => if decoded.limits is None {
            Some(ApiKeyError::UnsupportedCredential)
        } else {
            None
        },
        Err(e) => Some(ApiKeyError::of_decode_error(e)),
    }
}

/// What a client takes from an issued key is what the key was issued with: the
/// identifier, the method with the secret byte by byte, and the limits of the
/// quota word.
pub proof fn lemma_key_holds_what_was_issued(
    key: ApiKeyView,
    key_id: u64,
    secret: Seq<u8>,
    word: u32,
)
    requires
        secret.len() == 32,
        api_key_codec::limits_of_word(word as nat) is Ok,
    ensures
        ({
            let payload = api_key_codec::issued_payload(key_id, secret, word);
            let encoded = api_key_codec::bech32_encoded("rl-cookie"@, payload)->Ok_0;
            &&& key_error(encoded) is None
            &&& is_key_of(key, encoded) <==> key.key_id == key_id && key.limits
                == api_key_codec::limits_of_word(word as nat)->Ok_0 && (
            key.auth_method matches AuthMethod::Cookie(held) && held@ == secret)
        }),
        ({
            let payload = api_key_codec::issued_payload(key_id, secret, word);
            let encoded = api_key_codec::bech32_encoded("rl-aes"@, payload)->Ok_0;
            &&& key_error(encoded) is None
            &&& is_key_of(key, encoded) <==> key.key_id == key_id && key.limits
                == api_key_codec::limits_of_word(word as nat)->Ok_0 && (
            key.auth_method matches AuthMethod::AesGcm(held) && held@ == secret)
        }),
        ({
            let payload = api_key_codec::issued_payload(key_id, Seq::empty(), word);
            let encoded = api_key_codec::bech32_encoded("rl-none"@, payload)->Ok_0;
            &&& key_error(encoded) is None
            &&& is_key_of(key, encoded) <==> key.key_id == key_id && key.limits
                == api_key_codec::limits_of_word(word as nat)->Ok_0
                && key.auth_method is Unauthenticated
        }),
        ({
            let encoded = api_key_codec::bech32_encoded("rl-secret"@, secret)->Ok_0;
            &&& key_error(encoded) matches Some(e) && e is UnsupportedCredential
            &&& !is_key_of(key, encoded)
        }),
{
    reveal_strlit("none");
    reveal_strlit("cookie");
    reveal_strlit("aes");
    api_key_codec::lemma_issued_key_is_read(key_id, secret, word);
    api_key_codec::lemma_issued_key_without_secret_is_read(key_id, word);
    api_key_codec::lemma_bare_secret_is_read(secret);
    assert("cookie"@.len() == 6 && "aes"@.len() == 3 && "none"@.len() == 4);
}

/// What is said of a text that is no key: an unknown format version, an
/// unknown kind of credential, invalid limits; anything else is an invalid
/// encoding.
pub proof fn lemma_refused_keys_are_told_apart(encoded: Seq<char>)
    ensures
        match api_key_codec::decoded_api_key(encoded) {
            Err(reason) => {
                let told = key_error(encoded);
                &&& told is Some
                &&& told->0 is UnsupportedVersion <==> reason is UnsupportedFormatVersion
                &&& told->0 is InvalidLimits <==> reason is InvalidPackedQuota
                &&& told->0 is UnsupportedCredential <==> reason is UnsupportedAuthMethod
                    || reason is InvalidHrpPrefix
            },
            Ok(decoded) => {
                &&& decoded.limits is Some ==> key_error(encoded) is None
                &&& decoded.limits is None ==> (key_error(encoded) matches Some(e)
                    && e is UnsupportedCredential)
            },
        },
{
}

impl ApiKey {
    /// Returns the non-secret identifier carried by this API key.
    ///
    /// The identifier is safe to use when deriving the default service domain;
    /// it is not an authentication secret.
    pub fn key_id(&self) -> (key_id: u64)
        ensures
            key_id == self@.key_id,
    {
        self.inner.key_id
    }

    /// The authentication method with its secret.
    pub(crate) fn auth_method(&self) -> (method: AuthMethod)
        ensures
            method == self@.auth_method,
    {
        self.inner.auth_method
    }

    /// The limits of the key.
    pub(crate) fn limits(&self) -> (limits: ApiKeyLimits)
        ensures
            limits == self@.limits,
    {
        self.inner.limits
    }

    /// What diagnostic output shows of a key: its identifier alone.
    pub open spec fn shown(key_id: u64) -> Seq<char> {
        "ApiKey { key_id: "@ + text::decimal_text(key_id as nat)
            + ", credential: \"[REDACTED]\" }"@
    }

    /// The key as diagnostic text, without the credential.
    pub fn debug_text(&self) -> (shown: String)
        ensures
            shown@ == ApiKey::shown(self@.key_id),
    {
        let mut shown: String = "ApiKey { key_id: ".to_owned();
        let digits: String = text::decimal(self.inner.key_id);
        shown.append(digits.as_str());
        shown.append(", credential: \"[REDACTED]\" }");
        shown
    }
}

impl Clone for ApiKey {
    fn clone(&self) -> (copy: Self)
        ensures
            copy@ == self@,
    {
        ApiKey { inner: self.inner.clone() }
    }
}

impl FromStr for ApiKey {
    type Err = ApiKeyError;

    fn from_str(encoded: &str) -> (key: Result<Self, ApiKeyError>)
        ensures
            match key {
                Ok(k) => is_key_of(k@, encoded@) && key_error(encoded@) is None,
                Err(e) => key_error(encoded@) == Some(e),
            },
    {
        let decoded: api_key_codec::DecodedApiKey = match decode_api_key(encoded) {
            Ok(d) => d,
            Err(e) => return Err(ApiKeyError::from_decode_error(e)),
        };
        let limits: ApiKeyLimits = match decoded.limits {
            Some(l) => l,
            None => return Err(ApiKeyError::UnsupportedCredential),
        };
        proof {
            api_key_codec::lemma_key_methods(encoded@);
        }
        let auth_method: AuthMethod = if text::same_text(decoded.auth_method.as_str(), "none") {
            AuthMethod::Unauthenticated
        } else if text::same_text(decoded.auth_method.as_str(), "cookie") {
            AuthMethod::Cookie(secret_array(decoded.auth_secret.as_slice()))
        } else {
            AuthMethod::AesGcm(secret_array(decoded.auth_secret.as_slice()))
        };
        Ok(ApiKey { inner: Arc::new(ApiKeyInner { key_id: decoded.key_id, auth_method, limits }) })
    }
}

/// The 32 bytes of a secret as an array.
fn secret_array(bytes: &[u8]) -> (secret: [u8; 32])
    requires
        bytes@.len() == 32,
    ensures
        secret@ == bytes@,
{
    let secret: [u8; 32] = wire::read_array::<32>(bytes, 0);
    assert(bytes@.subrange(0, 32) =~= bytes@);
    secret
}

/// An API-key validation error that never contains credential material.
#[derive(Debug, Clone, Copy, PartialEq, Eq, Structural)]
#[non_exhaustive]
pub enum ApiKeyError {
    /// The value is not a valid Ratelimitly API-key encoding.
    InvalidEncoding,
    /// The API-key format version is not supported by this client.
    UnsupportedVersion,
    /// The credential type is not accepted by the resource client.
    UnsupportedCredential,
    /// The API-key limits are invalid.
    InvalidLimits,
}

impl ApiKeyError {
    /// What the error says.
    pub open spec fn message(&self) -> Seq<char> {
        match *self {
            ApiKeyError::InvalidEncoding => "invalid API-key encoding"@,
            ApiKeyError::UnsupportedVersion => "unsupported API-key format version"@,
            ApiKeyError::UnsupportedCredential => "unsupported API-key credential type"@,
            ApiKeyError::InvalidLimits => "invalid API-key limits"@,
        }
    }

    /// The error as text.
    pub fn to_string(&self) -> (text: String)
        ensures
            text@ == self.message(),
    {
        match self {
            ApiKeyError::InvalidEncoding => "invalid API-key encoding".to_owned(),
            ApiKeyError::UnsupportedVersion => "unsupported API-key format version".to_owned(),
            ApiKeyError::UnsupportedCredential => "unsupported API-key credential type".to_owned(),
            ApiKeyError::InvalidLimits => "invalid API-key limits".to_owned(),
        }
    }

    /// The public error of a decoding error.
    pub open spec fn of_decode_error(error: api_key_codec::DecodeErrorView) -> ApiKeyError {
        match error {
            api_key_codec::DecodeErrorView::UnsupportedFormatVersion(_) => {
                ApiKeyError::UnsupportedVersion
            },
            api_key_codec::DecodeErrorView::UnsupportedAuthMethod(_) => {
                ApiKeyError::UnsupportedCredential
            },
            api_key_codec::DecodeErrorView::InvalidHrpPrefix => ApiKeyError::UnsupportedCredential,
            api_key_codec::DecodeErrorView::InvalidPackedQuota => ApiKeyError::InvalidLimits,
            _ => ApiKeyError::InvalidEncoding,
        }
    }

    /// The public error of a decoding error.
    fn from_decode_error(error: DecodeError) -> (public: Self)
        ensures
            public == ApiKeyError::of_decode_error(error@),
    {
        match error {
            DecodeError::UnsupportedFormatVersion(_) => ApiKeyError::UnsupportedVersion,
            DecodeError::UnsupportedAuthMethod(_) => ApiKeyError::UnsupportedCredential,
            DecodeError::InvalidHrpPrefix => ApiKeyError::UnsupportedCredential,
            DecodeError::InvalidPackedQuota => ApiKeyError::InvalidLimits,
            _ => ApiKeyError::InvalidEncoding,
        }
    }
}

} // verus!
