//! The verified core of a client for [Ratelimitly](https://ratelimitly.com/).
//!
//! Ratelimitly provides atomic admission decisions for work that consumes
//! rate-limited resources and may depend on latency conditions. There are two
//! independent operations:
//!
//! - a resource request asks whether work may proceed and may consume one or
//!   more [`Resource`] quantities;
//! - a latency report records one observation for a [`LatencyTracker`] used by
//!   future guards.
//!
//! A non-empty resource request is answered by [`Decision::Granted`] or
//! [`Decision::Rejected`]. Failure to obtain a decision is an [`Error`], never
//! disguised as a rejection. An empty request is the identity case: it is
//! granted locally.
//!
//! This crate neither sends nor receives. It reads API keys, validates
//! configuration, derives identifiers, writes and reads packets, and decides
//! what to do next: a [`request_run::RequestRun`] takes packets and deadlines in
//! and says where to send, how long to listen and which response is the answer.
//! Clock, sockets and DNS are the caller's.

pub mod api_key;
pub mod api_key_codec;
pub mod bit_groups;
pub mod buffer;
pub mod client;
pub mod config;
pub mod crypto;
pub mod delivery;
pub mod discovery;
pub mod duration;
pub mod error;
pub mod formatting;
pub mod model;
pub mod protocol;
pub mod public_client;
pub mod request_policy;
pub mod request_run;
pub mod request_wire;
pub mod response_wire;
pub mod routing;
pub mod selection;
pub mod steering;
pub mod text;
pub mod wire;

pub use api_key::{ApiKey, ApiKeyError};
pub use error::{ConfigurationError, Error};
pub use model::{
    Decision, GuardResult, LatencyTracker, LatencyTrackerBuilder, LatencyTrackerId, Resource,
    ResourceId, ResourceResult, Response,
};
pub use protocol::{
    derive_bucket_id, derive_bucket_id_bytes, derive_latency_tracker_id,
    derive_latency_tracker_id_bytes,
};
pub use public_client::{Client, ClientBuilder, RequestBuilder};
pub use request_policy::{RequestPolicy, RequestPolicyBuilder, Schedule};
