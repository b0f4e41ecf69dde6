//! The protocol core: what a client holds, and what it decides before anything
//! is sent.

use vstd::prelude::*;

use crate::api_key_codec::ApiKeyLimits;
use crate::config::{AuthMethod, CoreConfig, PeerAddr};
use crate::error::{CoreError, CoreErrorView};
use crate::protocol::{LatencyGuard, RateLimitResult, RateLimitResultView, ResourceRequest};
use crate::request_policy;
use crate::request_policy::{RequestPolicy, RequestPolicyView};
use crate::text;

verus! {

/// The protocol core of a client: its configuration, with the credentials at
/// hand.
pub struct CoreClient {
    config: CoreConfig,
    cookie_hash_cache: Option<[u8; 32]>,
    aes_key_cache: Option<[u8; 32]>,
}

/// What a [`CoreClient`] is set up with.
pub ghost struct CoreClientView {
    pub service_domain: Seq<char>,
    pub key_id: u64,
    pub auth_method: AuthMethod,
    pub limits: ApiKeyLimits,
    pub steering_feedback: bool,
    pub dns_refresh_interval_s: u64,
    pub ignore_steering_feedback: bool,
    pub request_policy: RequestPolicyView,
    pub dns_server: Option<PeerAddr>,
}

impl CoreClientView {
    /// The setup that a configuration describes.
    pub open spec fn of_config(config: CoreConfig) -> CoreClientView {
        CoreClientView {
            service_domain: config.api_key.service_domain@,
            key_id: config.api_key.key_id,
            auth_method: config.api_key.auth_method,
            limits: config.api_key.limits,
            steering_feedback: config.api_key.steering_feedback,
            dns_refresh_interval_s: config.dns_refresh_interval_s,
            ignore_steering_feedback: config.ignore_steering_feedback,
            request_policy: config.request_policy@,
            dns_server: config.dns_server,
        }
    }
}

impl View for CoreClient {
    type V = CoreClientView;

    closed spec fn view(&self) -> CoreClientView {
        CoreClientView::of_config(self.config)
    }
}

/// The cookie hash that an authentication method needs at hand.
pub open spec fn cookie_of(method: AuthMethod) -> Option<[u8; 32]> {
    match method {
        AuthMethod::Cookie(secret) => Some(secret),
        _ => None,
    }
}

/// The AES key that an authentication method needs at hand.
pub open spec fn aes_key_of(method: AuthMethod) -> Option<[u8; 32]> {
    match method {
        AuthMethod::AesGcm(secret) => Some(secret),
        _ => None,
    }
}

/// The first resource whose window exceeds the limit.
pub open spec fn first_oversized(resources: Seq<ResourceRequest>, limit: u32) -> Option<int>
    decreases resources.len(),
{
    if resources.len() == 0 {
        None
    } else {
        match first_oversized(resources.drop_last(), limit) {
            Some(i) => Some(i),
            None => if resources.last().window_size_ms > limit {
                Some(resources.len() - 1)
            } else {
                None
            },
        }
    }
}

/// What is said of a resource whose window exceeds the limit.
pub open spec fn oversized_text(resource: ResourceRequest, limit: u32) -> Seq<char> {
    "Resource '"@ + resource.bucket_name@ + "' window_size_ms "@ + text::decimal_text(
        resource.window_size_ms as nat,
    ) + " exceeds rate_window_size_ms_max "@ + text::decimal_text(limit as nat)
}

/// The error of a request with a window beyond the key's quota, if it has one.
pub open spec fn window_error(
    resources: Seq<ResourceRequest>,
    rate_window_size_ms_max: Option<u32>,
) -> Option<CoreErrorView> {
    match rate_window_size_ms_max {
        Some(limit) => match first_oversized(resources, limit) {
            Some(i) => Some(CoreErrorView::Protocol(oversized_text(resources[i], limit))),
            None => None,
        },
        None => None,
    }
}

/// Where a window beyond the limit stands, none before it does so.
proof fn lemma_first_oversized(resources: Seq<ResourceRequest>, limit: u32, at: int)
    requires
        0 <= at < resources.len(),
        resources[at].window_size_ms > limit,
        forall|i: int| 0 <= i < at ==> (#[trigger] resources[i]).window_size_ms <= limit,
    ensures
        first_oversized(resources, limit) == Some(at),
    decreases resources.len(),
{
    if at < resources.len() - 1 {
        lemma_first_oversized(resources.drop_last(), limit, at);
    } else {
        lemma_none_oversized(resources.drop_last(), limit);
    }
}

/// If no window is beyond the limit, there is no first one.
pub proof fn lemma_none_oversized(resources: Seq<ResourceRequest>, limit: u32)
    requires
        forall|i: int| 0 <= i < resources.len() ==> (#[trigger] resources[i]).window_size_ms
            <= limit,
    ensures
        first_oversized(resources, limit) is None,
    decreases resources.len(),
{
    if resources.len() > 0 {
        lemma_none_oversized(resources.drop_last(), limit);
    }
}

/// A request is refused for its windows exactly if one of them is longer than
/// the key allows, and the refusal names the first that is.
pub proof fn lemma_first_long_window_is_named(resources: Seq<ResourceRequest>, limit: u32)
    ensures
        window_error(resources, None) is None,
        match window_error(resources, Some(limit)) {
            None => forall|i: int|
                0 <= i < resources.len() ==> (#[trigger] resources[i]).window_size_ms <= limit,
            Some(e) => exists|i: int|
                0 <= i < resources.len() && (#[trigger] resources[i]).window_size_ms > limit && (
                forall|j: int|
                    0 <= j < i ==> (#[trigger] resources[j]).window_size_ms <= limit) && e
                    == CoreErrorView::Protocol(
                    "Resource '"@ + resources[i].bucket_name@ + "' window_size_ms "@
                        + text::decimal_text(resources[i].window_size_ms as nat)
                        + " exceeds rate_window_size_ms_max "@ + text::decimal_text(limit as nat),
                ),
        },
{
    lemma_where_first_oversized(resources, limit);
}

/// The first window beyond the limit, if there is one.
proof fn lemma_where_first_oversized(resources: Seq<ResourceRequest>, limit: u32)
    ensures
        match first_oversized(resources, limit) {
            None => forall|i: int|
                0 <= i < resources.len() ==> (#[trigger] resources[i]).window_size_ms <= limit,
            Some(at) => 0 <= at < resources.len() && resources[at].window_size_ms > limit && forall|
                j: int,
            |
                0 <= j < at ==> (#[trigger] resources[j]).window_size_ms <= limit,
        },
    decreases resources.len(),
{
    if resources.len() > 0 {
        lemma_where_first_oversized(resources.drop_last(), limit);
        assert(forall|i: int|
            0 <= i < resources.len() - 1 ==> #[trigger] resources[i] == resources.drop_last()[i]);
    }
}

/// A client has the credential of its method at hand, and no other.
pub proof fn lemma_credentials_at_hand(method: AuthMethod)
    ensures
        match method {
            AuthMethod::Unauthenticated => cookie_of(method) is None && aes_key_of(method) is None,
            AuthMethod::Cookie(secret) => cookie_of(method) == Some(secret) && aes_key_of(
                method,
            ) is None,
            AuthMethod::AesGcm(secret) => cookie_of(method) is None && aes_key_of(method) == Some(
                secret,
            ),
        },
{
}

/// A client is set up with its configuration, all of it and as it is.
pub proof fn lemma_setup_is_the_configuration(config: CoreConfig)
    ensures
        ({
            let setup = CoreClientView::of_config(config);
            &&& setup.service_domain == config.api_key.service_domain@
            &&& setup.key_id == config.api_key.key_id
            &&& setup.auth_method == config.api_key.auth_method
            &&& setup.limits == config.api_key.limits
            &&& setup.steering_feedback == config.api_key.steering_feedback
            &&& setup.dns_refresh_interval_s == config.dns_refresh_interval_s
            &&& setup.ignore_steering_feedback == config.ignore_steering_feedback
            &&& setup.request_policy == config.request_policy@
            &&& setup.dns_server == config.dns_server
        }),
{
}

/// The result of an empty request.
pub open spec fn local_grant() -> RateLimitResultView {
    RateLimitResultView {
        success: true,
        guard_results: Seq::empty(),
        resource_results: Seq::empty(),
        server_id: 0,
        steering_feedback: false,
    }
}

/// The result of an empty request: a success with nothing to report, by no
/// server.
pub proof fn lemma_empty_request_succeeds()
    ensures
        local_grant().success,
        local_grant().guard_results.len() == 0,
        local_grant().resource_results.len() == 0,
        local_grant().server_id == 0,
        !local_grant().steering_feedback,
{
}

/// What is to be done about a request.
pub enum Admission {
    /// It asks for nothing and is granted without asking a server.
    Granted(RateLimitResult),
    /// Servers decide; the request is to be remembered for this many
    /// milliseconds.
    Ask { dedup_ttl_ms: u32 },
}

impl CoreClient {
    #[verifier::type_invariant]
    spec fn ready(self) -> bool {
        &&& self.cookie_hash_cache == cookie_of(self.config.api_key.auth_method)
        &&& self.aes_key_cache == aes_key_of(self.config.api_key.auth_method)
        &&& self.config.request_policy@.valid()
        &&& self.config.request_policy@.horizon() <= self.config.api_key.limits.dedup_ttl_ms_max
    }

    /// Sets the core up, provided that the policy fits the key.
    pub fn new(config: CoreConfig) -> (client: Result<Self, CoreError>)
        ensures
            match client {
                Ok(c) => c@ == CoreClientView::of_config(config)
                    && request_policy::checked_horizon(
                    config.request_policy@,
                    config.api_key.limits.dedup_ttl_ms_max as nat,
                ) is Ok,
                Err(e) => request_policy::checked_horizon(
                    config.request_policy@,
                    config.api_key.limits.dedup_ttl_ms_max as nat,
                ) matches Err(refused) && e@ == CoreErrorView::Config(refused.message()),
            },
    {
        let dedup_limit: u32 = config.api_key.limits.dedup_ttl_ms_max;
        match config.effective_request_policy().horizon_ms(dedup_limit) {
            Ok(_) => {},
            Err(e) => return Err(CoreError::Config(e.to_string())),
        }
        let cookie_hash_cache: Option<[u8; 32]> = match config.api_key.auth_method {
            AuthMethod::Cookie(secret) => Some(secret),
            _ => None,
        };
        let aes_key_cache: Option<[u8; 32]> = match config.api_key.auth_method {
            AuthMethod::AesGcm(secret) => Some(secret),
            _ => None,
        };
        Ok(CoreClient { config, cookie_hash_cache, aes_key_cache })
    }

    /// The domain under which servers are discovered.
    pub fn service_domain(&self) -> (domain: &str)
        ensures
            domain@ == self@.service_domain,
    {
        self.config.api_key.service_domain.as_str()
    }

    /// The key identifier.
    pub fn key_id(&self) -> (key_id: u64)
        ensures
            key_id == self@.key_id,
    {
        self.config.api_key.key_id
    }

    /// The limits of the key.
    pub fn limits(&self) -> (limits: ApiKeyLimits)
        ensures
            limits == self@.limits,
    {
        self.config.api_key.limits
    }

    /// Whether servers are asked for advice on the source port.
    pub fn steering_feedback(&self) -> (asked: bool)
        ensures
            asked == self@.steering_feedback,
    {
        self.config.api_key.steering_feedback
    }

    /// Whether advice on the source port is ignored.
    pub fn ignores_steering_feedback(&self) -> (ignored: bool)
        ensures
            ignored == self@.ignore_steering_feedback,
    {
        self.config.ignore_steering_feedback
    }

    /// How long discovered servers are reused, in seconds.
    pub fn dns_refresh_interval_s(&self) -> (seconds: u64)
        ensures
            seconds == self@.dns_refresh_interval_s,
    {
        self.config.dns_refresh_interval_s
    }

    /// The DNS server to ask in place of the system's resolver.
    pub fn dns_server(&self) -> (address: Option<PeerAddr>)
        ensures
            address == self@.dns_server,
    {
        self.config.dns_server
    }

    /// The timing policy of requests.
    pub fn request_policy(&self) -> (policy: RequestPolicy)
        ensures
            policy@ == self@.request_policy,
    {
        self.config.effective_request_policy()
    }

    /// The authentication method with its secret.
    pub(crate) fn auth_method(&self) -> (method: AuthMethod)
        ensures
            method == self@.auth_method,
    {
        self.config.api_key.auth_method
    }

    /// The cookie hash, where the method is by cookie.
    pub(crate) fn cookie_hash(&self) -> (cookie: Option<[u8; 32]>)
        ensures
            cookie == cookie_of(self@.auth_method),
    {
        proof {
            use_type_invariant(self);
        }
        self.cookie_hash_cache
    }

    /// The AES key, where the method is by AES-256-GCM.
    pub(crate) fn aes_key(&self) -> (key: Option<[u8; 32]>)
        ensures
            key == aes_key_of(self@.auth_method),
    {
        proof {
            use_type_invariant(self);
        }
        self.aes_key_cache
    }

    /// The horizon of requests, which the key's limit covers.
    pub fn dedup_ttl_ms(&self) -> (horizon: u32)
        ensures
            horizon as nat == self@.request_policy.horizon(),
            horizon <= self@.limits.dedup_ttl_ms_max,
            self@.request_policy.valid(),
    {
        proof {
            use_type_invariant(self);
        }
        match self.request_policy().horizon_ms(self.config.api_key.limits.dedup_ttl_ms_max) {
            Ok(ms) => ms,
            Err(_) => {
                proof {
                    request_policy::lemma_horizon_positive(self@.request_policy);
                    assert(false);
                }
                0
            },
        }
    }

    /// Refuses resources whose window exceeds the key's quota.
    pub fn validate_rate_windows_against_quota(
        resources: &[ResourceRequest],
        rate_window_size_ms_max: Option<u32>,
    ) -> (checked: Result<(), CoreError>)
        ensures
            match checked {
                Ok(_) => window_error(resources@, rate_window_size_ms_max) is None,
                Err(e) => window_error(resources@, rate_window_size_ms_max) == Some(e@),
            },
    {
        let limit: u32 = match rate_window_size_ms_max {
            Some(l) => l,
            None => return Ok(()),
        };
        let mut i: usize = 0;
        while i < resources.len()
            invariant
                i <= resources@.len(),
                rate_window_size_ms_max == Some(limit),
                forall|j: int| 0 <= j < i ==> (#[trigger] resources@[j]).window_size_ms <= limit,
            decreases resources@.len() - i,
        {
            let resource: &ResourceRequest = &resources[i];
            if resource.window_size_ms > limit {
                let mut message: String = "Resource '".to_owned();
                message.append(resource.bucket_name.as_str());
                message.append("' window_size_ms ");
                let window: String = text::decimal(resource.window_size_ms as u64);
                message.append(window.as_str());
                message.append(" exceeds rate_window_size_ms_max ");
                let most: String = text::decimal(limit as u64);
                message.append(most.as_str());
                proof {
                    lemma_first_oversized(resources@, limit, i as int);
                    assert(message@ =~= oversized_text(*resource, limit));
                }
                return Err(CoreError::Protocol(message));
            }
            i = i + 1;
        }
        proof {
            lemma_none_oversized(resources@, limit);
        }
        Ok(())
    }

    /// What to do about a request: refuse it for a window beyond the key's
    /// quota, grant it if it asks for nothing, or ask servers.
    pub fn admission(&self, resources: &[ResourceRequest], guards: &[LatencyGuard]) -> (outcome: Result<
        Admission,
        CoreError,
    >)
        ensures
            match outcome {
                Ok(Admission::Granted(result)) => {
                    &&& window_error(resources@, Some(self@.limits.rate_window_size_ms_max)) is None
                    &&& resources@.len() == 0 && guards@.len() == 0
                    &&& result@ == local_grant()
                },
                Ok(Admission::Ask { dedup_ttl_ms }) => {
                    &&& window_error(resources@, Some(self@.limits.rate_window_size_ms_max)) is None
                    &&& resources@.len() > 0 || guards@.len() > 0
                    &&& dedup_ttl_ms as nat == self@.request_policy.horizon()
                },
                Err(e) => window_error(resources@, Some(self@.limits.rate_window_size_ms_max))
                    == Some(e@),
            },
    {
        let limit: u32 = self.config.api_key.limits.rate_window_size_ms_max;
        match CoreClient::validate_rate_windows_against_quota(resources, Some(limit)) {
            Ok(_) => {},
            Err(e) => return Err(e),
        }
        if resources.len() == 0 && guards.len() == 0 {
            let result: RateLimitResult = RateLimitResult {
                success: true,
                guard_results: Vec::new(),
                resource_results: Vec::new(),
                server_id: 0,
                steering_feedback: false,
            };
            assert(result@.guard_results =~= local_grant().guard_results);
            assert(result@.resource_results =~= local_grant().resource_results);
            return Ok(Admission::Granted(result));
        }
        Ok(Admission::Ask { dedup_ttl_ms: self.dedup_ttl_ms() })
    }
}

} // verus!
