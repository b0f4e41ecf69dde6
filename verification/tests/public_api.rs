use std::time::Duration;

use ratelimitly::api_key_codec::bech32_encode;
use ratelimitly::config::PeerAddr;
use ratelimitly::public_client::{valid_dns_name, RequestAdmission};
use ratelimitly::{
    ApiKey, ApiKeyError, Client, ConfigurationError, Decision, Error, LatencyTracker,
    RequestPolicy, Resource, Response, Schedule,
};

const SYNTHETIC_NONE_KEY: &str = "rl-none1qyyqwps9qspsyq2sk8e0sfdp3ys";

fn synthetic_api_key() -> ApiKey {
    SYNTHETIC_NONE_KEY.parse().expect("synthetic key is valid")
}

fn inventory_tracker() -> LatencyTracker {
    LatencyTracker::builder("inventory")
        .sample_ttl(Duration::from_secs(10))
        .max_samples(100)
        .min_samples(5)
        .build()
        .expect("tracker definition is valid")
}

fn synthetic_client() -> Client {
    Client::builder(synthetic_api_key())
        .build()
        .expect("client construction succeeds")
}

fn configuration(error: Error) -> ConfigurationError {
    match error {
        Error::InvalidConfiguration(reason) => reason,
        other => panic!("another error: {other:?}"),
    }
}

fn refused<T>(outcome: Result<T, Error>) -> ConfigurationError {
    match outcome {
        Ok(_) => panic!("accepted"),
        Err(error) => configuration(error),
    }
}

#[test]
fn api_key_is_validated_opaque_and_redacted() {
    let key = synthetic_api_key();

    assert_eq!(key.key_id(), 0x0102_0304_0506_0708);
    let debug = key.debug_text();
    assert!(debug.contains("REDACTED"));
    assert!(!debug.contains(SYNTHETIC_NONE_KEY));
    assert_eq!(
        debug,
        "ApiKey { key_id: 72623859790382856, credential: \"[REDACTED]\" }"
    );
    assert_eq!(key.clone().key_id(), key.key_id());

    let invalid = "not-a-ratelimitly-api-key";
    let error = match invalid.parse::<ApiKey>() {
        Ok(_) => panic!("invalid key accepted"),
        Err(error) => error,
    };
    assert!(!error.to_string().contains(invalid));
    assert!(!format!("{error:?}").contains(invalid));
}

#[test]
fn api_key_errors_are_told_apart() {
    let error_of = |hrp: &str, payload: &[u8]| -> ApiKeyError {
        match bech32_encode(hrp, payload).expect("encode").parse::<ApiKey>() {
            Ok(_) => panic!("accepted"),
            Err(error) => error,
        }
    };
    assert_eq!(error_of("rl-none", &[1; 12]), ApiKeyError::InvalidEncoding);
    assert_eq!(error_of("rl-none", &[2; 13]), ApiKeyError::UnsupportedVersion);
    assert_eq!(error_of("xx-none", &[1; 13]), ApiKeyError::UnsupportedCredential);
    assert_eq!(error_of("rl-other", &[1; 13]), ApiKeyError::UnsupportedCredential);
    assert_eq!(error_of("rl-secret", &[1; 32]), ApiKeyError::UnsupportedCredential);
    let mut no_quota = [0u8; 13];
    no_quota[0] = 1;
    assert_eq!(error_of("rl-none", &no_quota), ApiKeyError::InvalidLimits);
    assert_eq!(
        ApiKeyError::InvalidEncoding.to_string(),
        "invalid API-key encoding"
    );
    assert_eq!(
        Error::from(ApiKeyError::InvalidLimits).to_string(),
        "invalid Ratelimitly API key"
    );
}

#[test]
fn request_policy_uses_durations_and_validates_its_horizon() {
    let default = RequestPolicy::default();
    assert_eq!(default.horizon(), Duration::from_millis(60));

    let custom = RequestPolicy::builder()
        .unit(Duration::from_millis(25))
        .replays(3)
        .replay_gap(Schedule::fixed(1))
        .final_receive_units(0)
        .completion_delivery(false)
        .build()
        .expect("valid policy");
    assert_eq!(custom.horizon(), Duration::from_millis(100));

    assert!(
        RequestPolicy::builder()
            .unit(Duration::ZERO)
            .build()
            .is_err()
    );
}

#[test]
fn resources_and_trackers_are_content_defined() {
    let checkout = Resource::new("checkout", Duration::from_secs(1), 100)
        .expect("resource definition is valid");
    let changed_rate = Resource::new("checkout", Duration::from_secs(1), 101)
        .expect("resource definition is valid");

    assert_eq!(checkout.name(), "checkout");
    assert_eq!(checkout.window(), Duration::from_secs(1));
    assert_eq!(checkout.rate_limit(), 100);
    assert_ne!(checkout.id(), changed_rate.id());

    let inventory = inventory_tracker();
    let changed_samples = LatencyTracker::builder("inventory")
        .sample_ttl(Duration::from_secs(10))
        .max_samples(101)
        .min_samples(5)
        .build()
        .expect("tracker definition is valid");

    assert_eq!(inventory.name(), "inventory");
    assert_eq!(inventory.sample_ttl(), Duration::from_secs(10));
    assert_eq!(inventory.max_samples(), 100);
    assert_eq!(inventory.min_samples(), 5);
    assert_ne!(inventory.id(), changed_samples.id());
}

#[test]
fn identities_have_their_canonical_bytes() {
    let checkout = Resource::new("checkout", Duration::from_secs(1), 100).unwrap();
    assert_eq!(checkout.id().to_string(), "f5cf3ad8b8406854b596ba3614f16eff");
    assert_eq!(checkout.clone().id().as_bytes(), checkout.id().as_bytes());

    let tracker = LatencyTracker::builder("inventory-backend")
        .sample_ttl(Duration::from_secs(10))
        .max_samples(100)
        .min_samples(5);
    let plain = tracker.clone().build().unwrap();
    let stored = tracker.buffer_size(64).build().unwrap();
    assert_eq!(plain.id().to_string(), "04283c08fe9f735566898b6982eac6c7");
    assert_eq!(plain.id().as_bytes()[0], 0x04);
    assert_eq!(plain.id(), stored.id());
    assert_eq!(plain.buffer_size(), 0);
    assert_eq!(stored.buffer_size(), 64);
    assert_eq!(stored.clone(), stored);
}

#[test]
fn tracker_builder_requires_a_complete_definition() {
    assert!(LatencyTracker::builder("inventory").build().is_err());
}

#[test]
fn tracker_faults_are_told_apart() {
    let ttl = Duration::from_secs(1);
    let full = || {
        LatencyTracker::builder("inventory")
            .sample_ttl(ttl)
            .max_samples(10)
            .min_samples(1)
    };
    let missing = |field| ConfigurationError::MissingTrackerField { field };
    let zero = |field| ConfigurationError::InvalidTrackerValue { field };
    assert!(full().build().is_ok());
    assert_eq!(
        refused(LatencyTracker::builder("").build()),
        ConfigurationError::InvalidName {
            kind: "latency tracker"
        }
    );
    assert_eq!(
        refused(LatencyTracker::builder("x").build()),
        missing("sample lifetime")
    );
    assert_eq!(
        refused(full().sample_ttl(Duration::from_micros(1)).build()),
        ConfigurationError::InvalidDuration {
            field: "sample lifetime"
        }
    );
    assert_eq!(
        refused(LatencyTracker::builder("x").sample_ttl(ttl).build()),
        missing("maximum samples")
    );
    assert_eq!(
        refused(LatencyTracker::builder("x").sample_ttl(ttl).max_samples(0).build()),
        missing("minimum samples")
    );
    assert_eq!(refused(full().max_samples(0).build()), zero("maximum samples"));
    assert_eq!(refused(full().buffer_size(0).build()), zero("buffer size"));
    assert_eq!(refused(full().min_samples(0).build()), zero("minimum samples"));
}

#[test]
fn resource_faults_are_told_apart() {
    let second = Duration::from_secs(1);
    assert_eq!(
        refused(Resource::new("", second, 1)),
        ConfigurationError::InvalidName { kind: "resource" }
    );
    for window in [
        Duration::ZERO,
        Duration::from_micros(10),
        Duration::from_millis(u64::from(u32::MAX) + 1),
    ] {
        assert_eq!(
            refused(Resource::new("x", window, 1)),
            ConfigurationError::InvalidDuration {
                field: "resource window"
            }
        );
    }
    let longest = Duration::from_millis(u64::from(u32::MAX));
    assert_eq!(Resource::new("x", longest, 1).unwrap().window(), longest);
}

fn locally_granted(client: &Client) -> Response {
    match client.request().admission().expect("empty request succeeds locally") {
        RequestAdmission::Granted(response) => response,
        RequestAdmission::Ask { .. } => panic!("an empty request asks servers"),
    }
}

#[test]
fn client_uses_one_key_and_empty_request_grants_locally() {
    let client = Client::builder(synthetic_api_key())
        .build()
        .expect("client construction succeeds without network access");

    assert_eq!(
        client.service_domain(),
        "c-72623859790382856.p0.ratelimitly.com"
    );

    let response = locally_granted(&client);
    assert_eq!(response.decision(), Decision::Granted);
    assert!(response.resource_results().is_empty());
    assert!(response.guard_results().is_empty());
    assert_eq!(response.selected_server_id(), None);
}

#[test]
fn client_builder_accepts_explicit_service_domain() {
    let dns_server = PeerAddr::V4 {
        ip4: 0x7f00_0001,
        port: 5300,
    };
    let client = Client::builder(synthetic_api_key())
        .service_domain("test.ratelimitly.invalid")
        .expect("service domain is valid")
        .dns_server(dns_server)
        .build()
        .expect("client construction succeeds without network access");

    assert_eq!(client.service_domain(), "test.ratelimitly.invalid");
    assert_eq!(client.protocol_core().dns_server(), Some(dns_server));
    assert_eq!(
        client.debug_text(),
        "Client { service_domain: \"test.ratelimitly.invalid\", .. }"
    );
    assert_eq!(
        refused(Client::builder(synthetic_api_key()).service_domain("bad..example")),
        ConfigurationError::InvalidServiceDomain
    );
}

#[test]
fn request_builder_accepts_a_bounded_metrics_label() {
    let client = synthetic_client();

    let _request = client
        .request()
        .metrics_label("checkout-api")
        .expect("short label is valid");
    assert!(client.request().metrics_label(&"x".repeat(65_527)).is_err());
    assert!(client.request().metrics_label(&"x".repeat(65_526)).is_ok());
    assert_eq!(
        refused(client.request().metrics_label(&"x".repeat(65_527))),
        ConfigurationError::InvalidMetricsLabel
    );
}

#[test]
fn request_builder_validates_token_quantities() {
    let client = synthetic_client();
    let resource = Resource::new("checkout", Duration::from_secs(1), 100)
        .expect("resource definition itself is valid");

    assert!(client.request().consume(&resource, 0).is_err());
    assert!(client.request().consume(&resource, 70_000).is_err());
    assert!(client.request().consume(&resource, 1).is_ok());
    assert!(client.request().consume(&resource, 65_535).is_ok());
    assert_eq!(
        refused(client.request().consume(&resource, 65_536)),
        ConfigurationError::InvalidTokenQuantity
    );
}

#[test]
fn request_builder_bounds_the_number_of_entries() {
    let client = synthetic_client();
    let resource = Resource::new("checkout", Duration::from_secs(1), 100).unwrap();
    let tracker = inventory_tracker();
    let threshold = Duration::from_millis(100);
    let mut request = client.request();
    for _ in 0..65_535 {
        request = match request.consume(&resource, 1) {
            Ok(next) => next,
            Err(error) => panic!("{error:?}"),
        };
        request = match request.guard(&tracker, threshold) {
            Ok(next) => next,
            Err(error) => panic!("{error:?}"),
        };
    }
    assert!(matches!(
        request.prepare(0),
        Err(Error::Protocol)
    ));
    let again = match request.guard(&tracker, Duration::ZERO) {
        Ok(_) => panic!("one guard too many"),
        Err(error) => configuration(error),
    };
    assert_eq!(again, ConfigurationError::TooManyRequestEntries { kind: "guards" });
    assert_eq!(
        refused(client.request().guard(&tracker, Duration::ZERO)),
        ConfigurationError::InvalidDuration {
            field: "latency threshold"
        }
    );
}

#[test]
fn client_rejects_policy_beyond_api_key_limit_without_disclosing_key() {
    let policy = RequestPolicy::builder()
        .unit(Duration::from_millis(200))
        .replays(1)
        .replay_gap(Schedule::fixed(1))
        .final_receive_units(1)
        .build()
        .expect("policy is structurally valid");

    let error = match Client::builder(synthetic_api_key())
        .request_policy(policy)
        .build()
    {
        Ok(_) => panic!("policy exceeds the synthetic key's 300 ms limit"),
        Err(error) => error,
    };

    assert!(!error.to_string().contains(SYNTHETIC_NONE_KEY));
    assert!(!format!("{error:?}").contains(SYNTHETIC_NONE_KEY));
    assert_eq!(
        error.to_string(),
        "invalid client configuration: request policy exceeds the API key limit"
    );
}

#[test]
fn windows_beyond_the_key_are_refused() {
    let word: u32 = 1 | (1 << 5) | (30 << 19) | (10 << 27);
    let mut payload = vec![1u8];
    payload.extend_from_slice(&9u64.to_le_bytes());
    payload.extend_from_slice(&word.to_le_bytes());
    let key: ApiKey = bech32_encode("rl-none", &payload).unwrap().parse().unwrap();
    let client = Client::builder(key).build().unwrap();
    let fits = Resource::new("x", Duration::from_millis(1_024), 1).unwrap();
    let beyond = Resource::new("x", Duration::from_millis(1_025), 1).unwrap();
    assert!(client.request().consume(&fits, 1).is_ok());
    assert_eq!(
        refused(client.request().consume(&beyond, 1)),
        ConfigurationError::ResourceWindowExceedsApiKey
    );
}

#[test]
fn client_is_send_and_sync() {
    fn assert_send_sync<T: Send + Sync>() {}
    assert_send_sync::<Client>();
}

#[test]
fn validates_service_domains() {
    assert!(valid_dns_name("test.ratelimitly.invalid"));
    assert!(!valid_dns_name("-bad.example"));
    assert!(!valid_dns_name("bad..example"));
}

#[test]
fn service_domains_are_bounded_ascii_labels() {
    let label = "a".repeat(63);
    let longest = format!("{label}.{label}.{label}.{}", "a".repeat(61));
    assert_eq!(longest.len(), 253);
    assert!(valid_dns_name(&longest));
    assert!(!valid_dns_name(&format!("{longest}a")));
    assert!(!valid_dns_name(&"a".repeat(64)));
    assert!(valid_dns_name("a"));
    assert!(valid_dns_name("A-1.b"));
    for bad in ["", ".", "a.", ".a", "a-.b", "a_b", "é.b", "a b"] {
        assert!(!valid_dns_name(bad), "accepted {bad:?}");
    }
}

#[test]
fn configuration_errors_say_what_is_wrong() {
    let said = |error: ConfigurationError| error.to_string();
    assert_eq!(
        said(ConfigurationError::InvalidDuration { field: "x" }),
        "x must be a positive whole number of milliseconds that fits in u32"
    );
    assert_eq!(
        said(ConfigurationError::MissingTrackerField { field: "x" }),
        "latency tracker is missing x"
    );
    assert_eq!(
        said(ConfigurationError::InvalidName { kind: "x" }),
        "x name is invalid"
    );
    assert_eq!(
        said(ConfigurationError::InvalidTrackerValue { field: "x" }),
        "latency tracker x must be positive"
    );
    assert_eq!(
        said(ConfigurationError::TooManyRequestEntries { kind: "x" }),
        "request contains too many x"
    );
    assert_eq!(
        said(ConfigurationError::InvalidTokenQuantity),
        "tokens requested must be between 1 and 65535"
    );
    assert_eq!(
        said(ConfigurationError::TrackerBufferExceedsApiKey),
        "latency tracker buffer exceeds the API key limit"
    );
    assert_eq!(
        said(ConfigurationError::Unsupported),
        "configuration is not supported"
    );
    assert_eq!(Error::Timeout.to_string(), "Ratelimitly request timed out");
}

#[test]
fn identities_are_shown_in_hexadecimal() {
    let resource = Resource::new("checkout", Duration::from_secs(1), 100).expect("resource");
    assert_eq!(resource.id().to_string(), "f5cf3ad8b8406854b596ba3614f16eff");
    assert_eq!(
        format!("{:?}", resource.id()),
        "ResourceId(\"f5cf3ad8b8406854b596ba3614f16eff\")"
    );
    let tracker = LatencyTracker::builder("inventory-backend")
        .sample_ttl(Duration::from_secs(10))
        .max_samples(100)
        .min_samples(5)
        .build()
        .expect("tracker");
    assert_eq!(
        format!("{:?}", tracker.id()),
        "LatencyTrackerId(\"04283c08fe9f735566898b6982eac6c7\")"
    );
    assert_eq!(
        format!("{:#?}", tracker.id()),
        "LatencyTrackerId(\n    \"04283c08fe9f735566898b6982eac6c7\",\n)"
    );
    assert_eq!(
        format!("{resource:?}"),
        "Resource { name: \"checkout\", window_ms: 1000, rate_limit: 100, \
         id: ResourceId(\"f5cf3ad8b8406854b596ba3614f16eff\") }"
    );
    assert_eq!(
        format!("{resource:#?}"),
        "Resource {\n    name: \"checkout\",\n    window_ms: 1000,\n    rate_limit: 100,\n    \
         id: ResourceId(\n        \"f5cf3ad8b8406854b596ba3614f16eff\",\n    ),\n}"
    );
}

#[test]
fn trackers_show_the_storage_as_a_number() {
    let builder = LatencyTracker::builder("inventory-backend")
        .sample_ttl(Duration::from_secs(10))
        .max_samples(100)
        .min_samples(5);
    let stored = builder.clone().buffer_size(32).build().expect("tracker");
    assert_eq!(stored.buffer_size(), 32);
    assert_eq!(
        format!("{stored:?}"),
        "LatencyTracker { name: \"inventory-backend\", sample_ttl_ms: 10000, max_samples: 100, \
         buffer_size: 32, min_samples: 5, \
         id: LatencyTrackerId(\"04283c08fe9f735566898b6982eac6c7\") }"
    );
    let unstored = builder.build().expect("tracker");
    assert_eq!(unstored.buffer_size(), 0);
    assert_eq!(unstored.id(), stored.id());
    assert_ne!(unstored, stored);
}

#[test]
fn every_default_domain_is_a_dns_name() {
    for key_id in [0u64, 9, 10, u64::MAX] {
        let mut payload = vec![1u8];
        payload.extend_from_slice(&key_id.to_le_bytes());
        payload.extend_from_slice(&(30u32 << 19).to_le_bytes());
        let key: ApiKey = bech32_encode("rl-none", &payload)
            .expect("encode")
            .parse()
            .expect("valid key");
        let client = Client::builder(key).build().expect("client");
        assert_eq!(
            client.service_domain(),
            format!("c-{key_id}.p0.ratelimitly.com")
        );
        assert!(valid_dns_name(client.service_domain()));
    }
}
