//! The errors of the public interface and of the protocol core.

use std::io;

use vstd::prelude::*;
use vstd::std_specs::convert::{FromSpec, FromSpecImpl};
use vstd::string;

use crate::api_key::ApiKeyError;

verus! {

/// The error of a local I/O operation, carried through as it is.
#[verifier::external_type_specification]
#[verifier::external_body]
pub struct ExIoError(std::io::Error);

/// An error returned by the public Ratelimitly client interface.
#[derive(Debug)]
#[non_exhaustive]
pub enum Error {
    /// The supplied API key is invalid or unsupported.
    InvalidApiKey(ApiKeyError),
    /// Client, request, resource, tracker, or policy configuration is invalid.
    InvalidConfiguration(ConfigurationError),
    /// No usable Ratelimitly service could be discovered.
    Discovery,
    /// A local communication operation failed.
    Communication(io::Error),
    /// The request horizon ended without a usable decision.
    Timeout,
    /// The request or response did not satisfy the client protocol contract.
    Protocol,
    /// A local authentication operation failed.
    Authentication,
}

impl Error {
    /// What the error says.
    pub open spec fn message(&self) -> Seq<char> {
        match *self {
            Error::InvalidApiKey(_) => "invalid Ratelimitly API key"@,
            Error::InvalidConfiguration(e) => "invalid client configuration: "@ + e.message(),
            Error::Discovery => "Ratelimitly service discovery failed"@,
            Error::Communication(_) => "Ratelimitly communication failed"@,
            Error::Timeout => "Ratelimitly request timed out"@,
            Error::Protocol => "Ratelimitly protocol error"@,
            Error::Authentication => "Ratelimitly authentication error"@,
        }
    }

    /// The error as text; neither the key nor any credential is part of it.
    pub fn to_string(&self) -> (text: String)
        ensures
            text@ == self.message(),
    {
        match self {
            Error::InvalidApiKey(_) => "invalid Ratelimitly API key".to_owned(),
            Error::InvalidConfiguration(e) => {
                let mut text: String = "invalid client configuration: ".to_owned();
                let detail: String = e.to_string();
                text.append(detail.as_str());
                text
            },
            Error::Discovery => "Ratelimitly service discovery failed".to_owned(),
            Error::Communication(_) => "Ratelimitly communication failed".to_owned(),
            Error::Timeout => "Ratelimitly request timed out".to_owned(),
            Error::Protocol => "Ratelimitly protocol error".to_owned(),
            Error::Authentication => "Ratelimitly authentication error".to_owned(),
        }
    }
}

impl From<ApiKeyError> for Error {
    fn from(error: ApiKeyError) -> (wrapped: Self) {
        Error::InvalidApiKey(error)
    }
}

impl FromSpecImpl<ApiKeyError> for Error {
    open spec fn obeys_from_spec() -> bool {
        true
    }

    open spec fn from_spec(error: ApiKeyError) -> Self {
        Error::InvalidApiKey(error)
    }
}

impl From<ConfigurationError> for Error {
    fn from(error: ConfigurationError) -> (wrapped: Self) {
        Error::InvalidConfiguration(error)
    }
}

impl FromSpecImpl<ConfigurationError> for Error {
    open spec fn obeys_from_spec() -> bool {
        true
    }

    open spec fn from_spec(error: ConfigurationError) -> Self {
        Error::InvalidConfiguration(error)
    }
}

/// A public configuration-validation error.
#[derive(Debug, Clone, Copy, PartialEq, Eq)]
#[non_exhaustive]
pub enum ConfigurationError {
    /// A duration is zero, has sub-millisecond precision, or exceeds the wire
    /// representation.
    InvalidDuration {
        /// The public field whose value is invalid.
        field: &'static str,
    },
    /// A required latency-tracker field was not configured.
    MissingTrackerField {
        /// The missing builder field.
        field: &'static str,
    },
    /// A resource or latency-tracker name is empty or too long.
    InvalidName {
        /// The named definition kind.
        kind: &'static str,
    },
    /// A latency-tracker numeric field must be positive.
    InvalidTrackerValue {
        /// The invalid tracker field.
        field: &'static str,
    },
    /// A resource consumption must request at least one representable token.
    InvalidTokenQuantity,
    /// A metrics label cannot be represented by the wire protocol.
    InvalidMetricsLabel,
    /// A resource window exceeds the limit carried by the API key.
    ResourceWindowExceedsApiKey,
    /// A latency-tracker buffer exceeds the limit carried by the API key.
    TrackerBufferExceedsApiKey,
    /// The HA schedule is structurally invalid.
    InvalidRequestPolicy,
    /// The HA schedule exceeds the API key's request-horizon limit.
    RequestPolicyExceedsApiKey,
    /// The service-domain override is not a valid DNS name.
    InvalidServiceDomain,
    /// A request contains more entries than the client can represent.
    TooManyRequestEntries {
        /// The entry kind whose count overflowed.
        kind: &'static str,
    },
    /// An internal configuration contract rejected the supplied values.
    Unsupported,
}

/// Two texts, one after the other.
fn joined(head: &str, tail: &str) -> (text: String)
    ensures
        text@ == head@ + tail@,
{
    let mut text: String = head.to_owned();
    text.append(tail);
    text
}

impl ConfigurationError {
    /// What the error says.
    pub open spec fn message(&self) -> Seq<char> {
        match *self {
            ConfigurationError::InvalidDuration { field } => field@
                + " must be a positive whole number of milliseconds that fits in u32"@,
            ConfigurationError::MissingTrackerField { field } => "latency tracker is missing "@
                + field@,
            ConfigurationError::InvalidName { kind } => kind@ + " name is invalid"@,
            ConfigurationError::InvalidTrackerValue { field } => "latency tracker "@ + field@
                + " must be positive"@,
            ConfigurationError::InvalidTokenQuantity => {
                "tokens requested must be between 1 and 65535"@
            },
            ConfigurationError::InvalidMetricsLabel => "metrics label is too long"@,
            ConfigurationError::ResourceWindowExceedsApiKey => {
                "resource window exceeds the API key limit"@
            },
            ConfigurationError::TrackerBufferExceedsApiKey => {
                "latency tracker buffer exceeds the API key limit"@
            },
            ConfigurationError::InvalidRequestPolicy => "request policy schedule is invalid"@,
            ConfigurationError::RequestPolicyExceedsApiKey => {
                "request policy exceeds the API key limit"@
            },
            ConfigurationError::InvalidServiceDomain => "service domain is invalid"@,
            ConfigurationError::TooManyRequestEntries { kind } => "request contains too many "@
                + kind@,
            ConfigurationError::Unsupported => "configuration is not supported"@,
        }
    }

    /// The error as text.
    pub fn to_string(&self) -> (text: String)
        ensures
            text@ == self.message(),
    {
        match self {
            ConfigurationError::InvalidDuration { field } => joined(
                field,
                " must be a positive whole number of milliseconds that fits in u32",
            ),
            ConfigurationError::MissingTrackerField { field } => joined(
                "latency tracker is missing ",
                field,
            ),
            ConfigurationError::InvalidName { kind } => joined(kind, " name is invalid"),
            ConfigurationError::InvalidTrackerValue { field } => {
                let mut text: String = joined("latency tracker ", field);
                text.append(" must be positive");
                text
            },
            ConfigurationError::InvalidTokenQuantity => {
                "tokens requested must be between 1 and 65535".to_owned()
            },
            ConfigurationError::InvalidMetricsLabel => "metrics label is too long".to_owned(),
            ConfigurationError::ResourceWindowExceedsApiKey => {
                "resource window exceeds the API key limit".to_owned()
            },
            ConfigurationError::TrackerBufferExceedsApiKey => {
                "latency tracker buffer exceeds the API key limit".to_owned()
            },
            ConfigurationError::InvalidRequestPolicy => {
                "request policy schedule is invalid".to_owned()
            },
            ConfigurationError::RequestPolicyExceedsApiKey => {
                "request policy exceeds the API key limit".to_owned()
            },
            ConfigurationError::InvalidServiceDomain => "service domain is invalid".to_owned(),
            ConfigurationError::TooManyRequestEntries { kind } => joined(
                "request contains too many ",
                kind,
            ),
            ConfigurationError::Unsupported => "configuration is not supported".to_owned(),
        }
    }
}

/// An error of the protocol core.
#[derive(Debug)]
pub enum CoreError {
    /// A local I/O operation failed.
    Io(io::Error),
    /// The request horizon ended in silence.
    Timeout,
    /// A message breaks the protocol.
    Protocol(String),
    /// Authentication failed.
    Auth(String),
    /// Discovery failed.
    Dns(String),
    /// The configuration does not fit the request.
    Config(String),
}

/// The content of a [`CoreError`].
pub ghost enum CoreErrorView {
    Io(io::Error),
    Timeout,
    Protocol(Seq<char>),
    Auth(Seq<char>),
    Dns(Seq<char>),
    Config(Seq<char>),
}

impl View for CoreError {
    type V = CoreErrorView;

    open spec fn view(&self) -> CoreErrorView {
        match *self {
            CoreError::Io(e) => CoreErrorView::Io(e),
            CoreError::Timeout => CoreErrorView::Timeout,
            CoreError::Protocol(m) => CoreErrorView::Protocol(m@),
            CoreError::Auth(m) => CoreErrorView::Auth(m@),
            CoreError::Dns(m) => CoreErrorView::Dns(m@),
            CoreError::Config(m) => CoreErrorView::Config(m@),
        }
    }
}

impl CoreError {
    /// Whether `text` says what the error is. What an I/O error itself says is
    /// up to the system.
    pub open spec fn says(&self, text: Seq<char>) -> bool {
        match *self {
            CoreError::Io(e) => exists|detail: String|
                #[trigger] string::to_string_from_display_ensures(&e, detail) && text
                    == "network I/O error: "@ + detail@,
            CoreError::Timeout => text == "request timed out"@,
            CoreError::Protocol(m) => text == "protocol error: "@ + m@,
            CoreError::Auth(m) => text == "authentication error: "@ + m@,
            CoreError::Dns(m) => text == "DNS resolution error: "@ + m@,
            CoreError::Config(m) => text == "configuration error: "@ + m@,
        }
    }

    /// The error as text.
    pub fn to_string(&self) -> (text: String)
        ensures
            self.says(text@),
    {
        match self {
            CoreError::Io(e) => {
                let detail: String = e.to_string();
                joined("network I/O error: ", detail.as_str())
            },
            CoreError::Timeout => "request timed out".to_owned(),
            CoreError::Protocol(m) => joined("protocol error: ", m.as_str()),
            CoreError::Auth(m) => joined("authentication error: ", m.as_str()),
            CoreError::Dns(m) => joined("DNS resolution error: ", m.as_str()),
            CoreError::Config(m) => joined("configuration error: ", m.as_str()),
        }
    }
}

impl From<CoreError> for Error {
    fn from(error: CoreError) -> (public: Self) {
        match error {
            CoreError::Io(source) => Error::Communication(source),
            CoreError::Timeout => Error::Timeout,
            CoreError::Protocol(_) => Error::Protocol,
            CoreError::Auth(_) => Error::Authentication,
            CoreError::Dns(_) => Error::Discovery,
            CoreError::Config(_) => Error::InvalidConfiguration(ConfigurationError::Unsupported),
        }
    }
}

impl FromSpecImpl<CoreError> for Error {
    open spec fn obeys_from_spec() -> bool {
        true
    }

    open spec fn from_spec(error: CoreError) -> Self {
        match error {
            CoreError::Io(source) => Error::Communication(source),
            CoreError::Timeout => Error::Timeout,
            CoreError::Protocol(_) => Error::Protocol,
            CoreError::Auth(_) => Error::Authentication,
            CoreError::Dns(_) => Error::Discovery,
            CoreError::Config(_) => Error::InvalidConfiguration(ConfigurationError::Unsupported),
        }
    }
}

/// What an error says tells the kind of failure and, of an invalid
/// configuration, the reason. It tells nothing of the key that was refused or
/// of the operation that failed.
pub proof fn lemma_errors_say_no_more_than_their_kind(
    key: ApiKeyError,
    source: io::Error,
    reason: ConfigurationError,
)
    ensures
        Error::InvalidApiKey(key).message() == "invalid Ratelimitly API key"@,
        Error::Communication(source).message() == "Ratelimitly communication failed"@,
        Error::InvalidConfiguration(reason).message() == "invalid client configuration: "@
            + reason.message(),
        Error::Discovery.message() == "Ratelimitly service discovery failed"@,
        Error::Timeout.message() == "Ratelimitly request timed out"@,
        Error::Protocol.message() == "Ratelimitly protocol error"@,
        Error::Authentication.message() == "Ratelimitly authentication error"@,
{
}

/// An error of the protocol core and its content are of the same kind and say
/// the same.
pub proof fn lemma_core_error_content(error: CoreError)
    ensures
        match error {
            CoreError::Io(e) => error@ == CoreErrorView::Io(e),
            CoreError::Timeout => error@ is Timeout,
            CoreError::Protocol(m) => error@ == CoreErrorView::Protocol(m@),
            CoreError::Auth(m) => error@ == CoreErrorView::Auth(m@),
            CoreError::Dns(m) => error@ == CoreErrorView::Dns(m@),
            CoreError::Config(m) => error@ == CoreErrorView::Config(m@),
        },
{
}

/// What an application is told of an error of the protocol core: each kind has
/// its own error. A timeout is told as a timeout, never as a decision.
pub proof fn lemma_core_errors_are_told_apart(error: CoreError)
    ensures
        ({
            let told = <Error as FromSpec<CoreError>>::from_spec(error);
            &&& told is Communication <==> error is Io
            &&& error matches CoreError::Io(source) ==> told == Error::Communication(source)
            &&& told is Timeout <==> error is Timeout
            &&& told is Protocol <==> error is Protocol
            &&& told is Authentication <==> error is Auth
            &&& told is Discovery <==> error is Dns
            &&& told is InvalidConfiguration <==> error is Config
        }),
{
}

/// The reason why a key or a configuration was refused is told as it is.
pub proof fn lemma_reasons_are_told(key: ApiKeyError, configuration: ConfigurationError)
    ensures
        <Error as FromSpec<ApiKeyError>>::from_spec(key) == Error::InvalidApiKey(key),
        <Error as FromSpec<ConfigurationError>>::from_spec(configuration)
            == Error::InvalidConfiguration(configuration),
{
}

} // verus!
