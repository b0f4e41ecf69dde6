//! The configuration that the protocol core works from.

use vstd::prelude::*;

use crate::api_key_codec::ApiKeyLimits;
use crate::request_policy::RequestPolicy;

verus! {

/// How requests prove which key they belong to.
#[derive(Clone, Copy)]
pub enum AuthMethod {
    /// Not at all.
    Unauthenticated,
    /// By a hash of the secret.
    Cookie([u8; 32]),
    /// By AES-256-GCM under the secret.
    AesGcm([u8; 32]),
}

/// What an API key says, and where its service is found.
#[derive(Clone)]
pub struct ApiKeyConfig {
    /// The domain under which servers are discovered.
    pub service_domain: String,
    /// The key identifier.
    pub key_id: u64,
    /// The authentication method with its secret.
    pub auth_method: AuthMethod,
    /// The limits of the key.
    pub limits: ApiKeyLimits,
    /// Whether servers may advise on the source port.
    pub steering_feedback: bool,
}

/// An address and port to send to.
#[derive(Debug, Clone, Copy, PartialEq, Eq, Structural)]
pub enum PeerAddr {
    /// An IPv4 address, most significant byte first, and a port.
    V4 { ip4: u32, port: u16 },
    /// An IPv6 address, most significant byte first, and a port.
    V6 { ip6: u128, port: u16, flowinfo: u32, scope_id: u32 },
}

/// Everything that the protocol core is set up with.
#[derive(Clone)]
pub struct CoreConfig {
    /// What the API key says.
    pub api_key: ApiKeyConfig,
    /// How long discovered servers are reused, in seconds.
    pub dns_refresh_interval_s: u64,
    /// Whether advice on the source port is ignored.
    pub ignore_steering_feedback: bool,
    /// The timing policy of requests.
    pub request_policy: RequestPolicy,
    /// The DNS server to ask in place of the system's resolver.
    pub dns_server: Option<PeerAddr>,
}

impl CoreConfig {
    /// The timing policy of requests.
    pub fn effective_request_policy(&self) -> (policy: RequestPolicy)
        ensures
            policy == self.request_policy,
    {
        self.request_policy
    }
}

} // verus!
