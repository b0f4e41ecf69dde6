//! Resources, latency trackers, and the answers to requests.

use std::fmt;
use std::time::Duration;

use vstd::prelude::*;
use vstd::utf8;

use crate::crypto;
use crate::duration;
use crate::duration::wire_millis;
use crate::error::{ConfigurationError, Error};
use crate::formatting;
use crate::protocol;
use crate::protocol::{derive_bucket_id, derive_latency_tracker_id};
use crate::text;

verus! {

/// The milliseconds of a duration that the wire can hold.
pub fn duration_to_u32_ms(duration: Duration, field: &'static str) -> (millis: Result<u32, Error>)
    ensures
        match millis {
            Ok(ms) => duration::is_whole_millis(duration, u32::MAX as nat) && ms as nat
                == duration::millis_of(duration),
            Err(e) => !duration::is_whole_millis(duration, u32::MAX as nat) && e
                == Error::InvalidConfiguration(ConfigurationError::InvalidDuration { field }),
        },
{
    match wire_millis(duration) {
        Some(ms) => Ok(ms),
        None => Err(Error::InvalidConfiguration(ConfigurationError::InvalidDuration { field })),
    }
}

/// Whether a name can be part of a definition.
pub open spec fn valid_name(name: Seq<char>) -> bool {
    0 < utf8::encode_utf8(name).len() <= u32::MAX
}

/// Whether a name can be part of a definition.
fn is_valid_name(name: &str) -> (valid: bool)
    ensures
        valid == valid_name(name@),
{
    let len: usize = name.as_bytes().len();
    len > 0 && len <= u32::MAX as usize
}

/// Any text that is not empty can be a name, as long as its length fits in 32
/// bits.
pub proof fn lemma_which_names_are_valid(name: Seq<char>)
    ensures
        valid_name(name) <==> name.len() > 0 && utf8::encode_utf8(name).len() < 0x1_0000_0000,
{
    if name.len() > 0 {
        let first = name.take(1);
        text::lemma_utf8_concat(first, name.skip(1));
        assert(first + name.skip(1) =~= name);
        if utf8::encode_utf8(first).len() == 0 {
            assert(utf8::encode_utf8(Seq::<char>::empty()).len() == 0) by {
                assert(Seq::<char>::empty().len() == 0);
            }
            assert(utf8::encode_utf8(first) =~= utf8::encode_utf8(Seq::<char>::empty()));
            text::lemma_utf8_injective(first, Seq::empty());
            assert(first.len() == 1);
        }
    } else {
        assert(name =~= Seq::empty());
    }
}

/// The stable identity of a content-defined rate counter.
#[derive(Clone, Copy, PartialEq, Eq, Hash)]
pub struct ResourceId([u8; 16]);

impl fmt::Debug for ResourceId {
    fn fmt(&self, formatter: &mut fmt::Formatter<'_>) -> (outcome: fmt::Result)
        ensures
            outcome is Ok ==> formatting::written(*final(formatter)) == formatting::written(
                *old(formatter),
            ) + formatting::tuple_text(
                formatting::is_alternate(*old(formatter)),
                "ResourceId"@,
                text::hex_text(self@),
            ),
    {
        let hex: String = self.to_string();
        formatting::write_tuple(formatter, "ResourceId", hex.as_str())
    }
}

impl View for ResourceId {
    type V = Seq<u8>;

    closed spec fn view(&self) -> Seq<u8> {
        self.0@
    }
}

impl ResourceId {
    /// The identity with these bytes.
    pub(crate) fn from_bytes(bytes: [u8; 16]) -> (id: Self)
        ensures
            id@ == bytes@,
    {
        ResourceId(bytes)
    }

    /// Returns the canonical identity bytes.
    pub fn as_bytes(&self) -> (bytes: &[u8; 16])
        ensures
            bytes@ == self@,
    {
        &self.0
    }

    /// The identity in hexadecimal.
    pub fn to_string(&self) -> (hex: String)
        ensures
            hex@ == text::hex_text(self@),
    {
        text::write_hex(&self.0)
    }
}

/// A content-defined rate-counter configuration.
#[derive(Debug, PartialEq, Eq)]
pub struct Resource {
    name: String,
    window_ms: u32,
    rate_limit: u32,
    id: ResourceId,
}

/// The definition of a [`Resource`].
pub ghost struct ResourceView {
    pub name: Seq<char>,
    pub window_ms: u32,
    pub rate_limit: u32,
}

impl View for Resource {
    type V = ResourceView;

    closed spec fn view(&self) -> ResourceView {
        ResourceView {
            name: self.name@,
            window_ms: self.window_ms,
            rate_limit: self.rate_limit,
        }
    }
}

impl ResourceView {
    /// Whether this is a definition: a name, and a window.
    pub open spec fn valid(self) -> bool {
        valid_name(self.name) && self.window_ms > 0
    }

    /// The bytes that the identity is the hash of.
    pub open spec fn preimage(self) -> Seq<u8> {
        protocol::content_preimage(
            utf8::encode_utf8(protocol::RESOURCE_ID_DOMAIN@),
            utf8::encode_utf8(self.name),
            seq![self.window_ms, self.rate_limit],
        )
    }

    /// The identity.
    pub open spec fn id(self) -> Seq<u8> {
        protocol::bucket_id(utf8::encode_utf8(self.name), self.window_ms, self.rate_limit)
    }
}

/// Changing the name, the window or the rate limit of a resource changes the
/// bytes that its identity is the hash of.
pub proof fn lemma_resource_is_content_defined(a: ResourceView, b: ResourceView)
    requires
        a.valid(),
        b.valid(),
    ensures
        a.preimage() == b.preimage() <==> a == b,
        a == b ==> a.id() == b.id(),
{
    if a.preimage() == b.preimage() {
        let (f, g) = (seq![a.window_ms, a.rate_limit], seq![b.window_ms, b.rate_limit]);
        protocol::lemma_preimage_injective(
            utf8::encode_utf8(protocol::RESOURCE_ID_DOMAIN@),
            utf8::encode_utf8(a.name),
            f,
            utf8::encode_utf8(b.name),
            g,
        );
        text::lemma_utf8_injective(a.name, b.name);
        assert(f[0] == g[0] && f[1] == g[1]);
    }
}

/// The identity of a resource is the first half of the hash of its name, its
/// window and its rate limit, in that order.
pub proof fn lemma_resource_identity(resource: ResourceView, i: int)
    requires
        0 <= i < 16,
    ensures
        resource.id().len() == 16,
        resource.id()[i] == crypto::blake2s256(resource.preimage())[i],
        resource.preimage() == protocol::content_preimage(
            utf8::encode_utf8("ratelimitly.resource.v1\0"@),
            utf8::encode_utf8(resource.name),
            seq![resource.window_ms, resource.rate_limit],
        ),
        resource.valid() <==> valid_name(resource.name) && resource.window_ms >= 1,
{
}

impl Resource {
    /// Every resource was validated, and its identity derived, when it was
    /// made.
    #[verifier::type_invariant]
    spec fn defined(self) -> bool {
        self@.valid() && self.id@ == self@.id()
    }

    /// Creates a content-defined rate-counter resource.
    ///
    /// # Errors
    ///
    /// Returns [`Error`] when `name` is empty or `window` is zero, has
    /// sub-millisecond precision, or cannot be represented in the wire format.
    pub fn new(name: &str, window: Duration, rate_limit: u32) -> (resource: Result<Self, Error>)
        ensures
            match resource {
                Ok(r) => {
                    &&& valid_name(name@)
                    &&& duration::is_whole_millis(window, u32::MAX as nat)
                    &&& r@ == (ResourceView {
                        name: name@,
                        window_ms: duration::millis_of(window) as u32,
                        rate_limit,
                    })
                },
                Err(e) => if !valid_name(name@) {
                    e == Error::InvalidConfiguration(
                        ConfigurationError::InvalidName { kind: "resource" },
                    )
                } else {
                    !duration::is_whole_millis(window, u32::MAX as nat) && e
                        == Error::InvalidConfiguration(
                        ConfigurationError::InvalidDuration { field: "resource window" },
                    )
                },
            },
    {
        if !is_valid_name(name) {
            return Err(
                Error::InvalidConfiguration(ConfigurationError::InvalidName { kind: "resource" }),
            );
        }
        let window_ms: u32 = match duration_to_u32_ms(window, "resource window") {
            Ok(ms) => ms,
            Err(e) => return Err(e),
        };
        let id: ResourceId = ResourceId::from_bytes(derive_bucket_id(name, window_ms, rate_limit));
        Ok(Resource { name: name.to_owned(), window_ms, rate_limit, id })
    }

    /// Returns the application-defined resource name.
    pub fn name(&self) -> (name: &str)
        ensures
            name@ == self@.name,
            self@.valid(),
    {
        proof {
            use_type_invariant(self);
        }
        self.name.as_str()
    }

    /// Returns the rate-counter window.
    pub fn window(&self) -> (window: Duration)
        ensures
            duration::duration_nanos(window) == self@.window_ms as nat * 1_000_000,
    {
        Duration::from_millis(self.window_ms as u64)
    }

    /// Returns the number of tokens available in one window.
    pub fn rate_limit(&self) -> (rate_limit: u32)
        ensures
            rate_limit == self@.rate_limit,
    {
        self.rate_limit
    }

    /// Returns the content-defined resource identity.
    pub fn id(&self) -> (id: ResourceId)
        ensures
            id@ == self@.id(),
    {
        proof {
            use_type_invariant(self);
        }
        self.id
    }

    /// The window in milliseconds.
    pub(crate) fn window_ms(&self) -> (window_ms: u32)
        ensures
            window_ms == self@.window_ms,
    {
        self.window_ms
    }
}

impl Clone for Resource {
    fn clone(&self) -> (copy: Self)
        ensures
            copy@ == self@,
    {
        proof {
            use_type_invariant(self);
        }
        Resource {
            name: self.name.clone(),
            window_ms: self.window_ms,
            rate_limit: self.rate_limit,
            id: self.id,
        }
    }
}

/// The stable identity of a content-defined latency tracker.
#[derive(Clone, Copy, PartialEq, Eq, Hash)]
pub struct LatencyTrackerId([u8; 16]);

impl fmt::Debug for LatencyTrackerId {
    fn fmt(&self, formatter: &mut fmt::Formatter<'_>) -> (outcome: fmt::Result)
        ensures
            outcome is Ok ==> formatting::written(*final(formatter)) == formatting::written(
                *old(formatter),
            ) + formatting::tuple_text(
                formatting::is_alternate(*old(formatter)),
                "LatencyTrackerId"@,
                text::hex_text(self@),
            ),
    {
        let hex: String = self.to_string();
        formatting::write_tuple(formatter, "LatencyTrackerId", hex.as_str())
    }
}

impl View for LatencyTrackerId {
    type V = Seq<u8>;

    closed spec fn view(&self) -> Seq<u8> {
        self.0@
    }
}

impl LatencyTrackerId {
    /// The identity with these bytes.
    pub(crate) fn from_bytes(bytes: [u8; 16]) -> (id: Self)
        ensures
            id@ == bytes@,
    {
        LatencyTrackerId(bytes)
    }

    /// Returns the canonical identity bytes.
    pub fn as_bytes(&self) -> (bytes: &[u8; 16])
        ensures
            bytes@ == self@,
    {
        &self.0
    }

    /// The identity in hexadecimal.
    pub fn to_string(&self) -> (hex: String)
        ensures
            hex@ == text::hex_text(self@),
    {
        text::write_hex(&self.0)
    }
}

/// A content-defined latency-tracker configuration.
#[derive(Debug, PartialEq, Eq)]
pub struct LatencyTracker {
    name: String,
    sample_ttl_ms: u32,
    max_samples: u32,
    buffer_size: u32,
    min_samples: u32,
    id: LatencyTrackerId,
}

/// The definition of a [`LatencyTracker`], and the storage requested for it.
pub ghost struct LatencyTrackerView {
    pub name: Seq<char>,
    pub sample_ttl_ms: u32,
    pub max_samples: u32,
    pub buffer_size: Option<u32>,
    pub min_samples: u32,
}

impl View for LatencyTracker {
    type V = LatencyTrackerView;

    closed spec fn view(&self) -> LatencyTrackerView {
        LatencyTrackerView {
            name: self.name@,
            sample_ttl_ms: self.sample_ttl_ms,
            max_samples: self.max_samples,
            buffer_size: if self.buffer_size == 0 {
                None
            } else {
                Some(self.buffer_size)
            },
            min_samples: self.min_samples,
        }
    }
}

impl LatencyTrackerView {
    /// Whether this is a definition: a name, a sample lifetime, and counts of
    /// at least one.
    pub open spec fn valid(self) -> bool {
        &&& valid_name(self.name)
        &&& self.sample_ttl_ms > 0
        &&& self.max_samples > 0
        &&& self.buffer_size != Some(0u32)
        &&& self.min_samples > 0
    }

    /// The bytes that the identity is the hash of.
    pub open spec fn preimage(self) -> Seq<u8> {
        protocol::content_preimage(
            utf8::encode_utf8(protocol::LATENCY_TRACKER_ID_DOMAIN@),
            utf8::encode_utf8(self.name),
            seq![self.sample_ttl_ms, self.max_samples, self.min_samples],
        )
    }

    /// The identity.
    pub open spec fn id(self) -> Seq<u8> {
        protocol::latency_tracker_id(
            utf8::encode_utf8(self.name),
            self.sample_ttl_ms,
            self.max_samples,
            self.min_samples,
        )
    }
}

/// Changing the name, the sample lifetime, the maximum or the minimum of
/// samples of a tracker changes the bytes that its identity is the hash of.
/// The storage requested is not part of it.
pub proof fn lemma_tracker_is_content_defined(a: LatencyTrackerView, b: LatencyTrackerView)
    requires
        a.valid(),
        b.valid(),
    ensures
        a.preimage() == b.preimage() <==> a.name == b.name && a.sample_ttl_ms == b.sample_ttl_ms
            && a.max_samples == b.max_samples && a.min_samples == b.min_samples,
        a.name == b.name && a.sample_ttl_ms == b.sample_ttl_ms && a.max_samples == b.max_samples
            && a.min_samples == b.min_samples ==> a.id() == b.id(),
{
    if a.preimage() == b.preimage() {
        let f = seq![a.sample_ttl_ms, a.max_samples, a.min_samples];
        let g = seq![b.sample_ttl_ms, b.max_samples, b.min_samples];
        protocol::lemma_preimage_injective(
            utf8::encode_utf8(protocol::LATENCY_TRACKER_ID_DOMAIN@),
            utf8::encode_utf8(a.name),
            f,
            utf8::encode_utf8(b.name),
            g,
        );
        text::lemma_utf8_injective(a.name, b.name);
        assert(f[0] == g[0] && f[1] == g[1] && f[2] == g[2]);
    }
}

/// The identity of a tracker is the first half of the hash of its name, its
/// sample lifetime, its maximum and its minimum of samples, in that order.
pub proof fn lemma_tracker_identity(tracker: LatencyTrackerView, i: int)
    requires
        0 <= i < 16,
    ensures
        tracker.id().len() == 16,
        tracker.id()[i] == crypto::blake2s256(tracker.preimage())[i],
        tracker.preimage() == protocol::content_preimage(
            utf8::encode_utf8("ratelimitly.latency-tracker.v1\0"@),
            utf8::encode_utf8(tracker.name),
            seq![tracker.sample_ttl_ms, tracker.max_samples, tracker.min_samples],
        ),
{
}

impl LatencyTracker {
    /// Every tracker was validated, and its identity derived, when it was
    /// built.
    #[verifier::type_invariant]
    spec fn defined(self) -> bool {
        self@.valid() && self.id@ == self@.id()
    }

    /// Starts a builder for a named latency tracker.
    pub fn builder(name: &str) -> (builder: LatencyTrackerBuilder)
        ensures
            builder@ == (LatencyTrackerBuilderView {
                name: name@,
                sample_ttl: None,
                max_samples: None,
                buffer_size: None,
                min_samples: None,
            }),
    {
        LatencyTrackerBuilder {
            name: name.to_owned(),
            sample_ttl: None,
            max_samples: None,
            buffer_size: None,
            min_samples: None,
        }
    }

    /// Returns the application-defined tracker name.
    pub fn name(&self) -> (name: &str)
        ensures
            name@ == self@.name,
            self@.valid(),
    {
        proof {
            use_type_invariant(self);
        }
        self.name.as_str()
    }

    /// Returns the maximum sample lifetime.
    pub fn sample_ttl(&self) -> (sample_ttl: Duration)
        ensures
            duration::duration_nanos(sample_ttl) == self@.sample_ttl_ms as nat * 1_000_000,
    {
        Duration::from_millis(self.sample_ttl_ms as u64)
    }

    /// Returns the maximum number of samples considered.
    pub fn max_samples(&self) -> (max_samples: u32)
        ensures
            max_samples == self@.max_samples,
    {
        self.max_samples
    }

    /// Returns the requested tracker storage; zero where none was requested
    /// and the server decides.
    pub fn buffer_size(&self) -> (buffer_size: u32)
        ensures
            buffer_size == match self@.buffer_size {
                Some(size) => size,
                None => 0,
            },
    {
        self.buffer_size
    }

    /// Returns the warm-up population required before guards take effect.
    pub fn min_samples(&self) -> (min_samples: u32)
        ensures
            min_samples == self@.min_samples,
    {
        self.min_samples
    }

    /// Returns the content-defined tracker identity.
    pub fn id(&self) -> (id: LatencyTrackerId)
        ensures
            id@ == self@.id(),
    {
        proof {
            use_type_invariant(self);
        }
        self.id
    }

    /// The sample lifetime in milliseconds.
    pub(crate) fn sample_ttl_ms(&self) -> (sample_ttl_ms: u32)
        ensures
            sample_ttl_ms == self@.sample_ttl_ms,
    {
        self.sample_ttl_ms
    }
}

impl Clone for LatencyTracker {
    fn clone(&self) -> (copy: Self)
        ensures
            copy@ == self@,
    {
        proof {
            use_type_invariant(self);
        }
        LatencyTracker {
            name: self.name.clone(),
            sample_ttl_ms: self.sample_ttl_ms,
            max_samples: self.max_samples,
            buffer_size: self.buffer_size,
            min_samples: self.min_samples,
            id: self.id,
        }
    }
}

/// Builder for [`LatencyTracker`].
#[derive(Debug, Clone)]
pub struct LatencyTrackerBuilder {
    name: String,
    sample_ttl: Option<Duration>,
    max_samples: Option<u32>,
    buffer_size: Option<u32>,
    min_samples: Option<u32>,
}

/// What a [`LatencyTrackerBuilder`] holds.
pub ghost struct LatencyTrackerBuilderView {
    pub name: Seq<char>,
    pub sample_ttl: Option<Duration>,
    pub max_samples: Option<u32>,
    pub buffer_size: Option<u32>,
    pub min_samples: Option<u32>,
}

impl View for LatencyTrackerBuilder {
    type V = LatencyTrackerBuilderView;

    closed spec fn view(&self) -> LatencyTrackerBuilderView {
        LatencyTrackerBuilderView {
            name: self.name@,
            sample_ttl: self.sample_ttl,
            max_samples: self.max_samples,
            buffer_size: self.buffer_size,
            min_samples: self.min_samples,
        }
    }
}

impl LatencyTrackerBuilderView {
    /// The first thing that keeps the settings from being a definition: the
    /// name, the lifetime, what is missing, what is zero.
    pub open spec fn refused(self) -> Option<ConfigurationError> {
        if !valid_name(self.name) {
            Some(ConfigurationError::InvalidName { kind: "latency tracker" })
        } else if self.sample_ttl is None {
            Some(ConfigurationError::MissingTrackerField { field: "sample lifetime" })
        } else if !duration::is_whole_millis(self.sample_ttl->0, u32::MAX as nat) {
            Some(ConfigurationError::InvalidDuration { field: "sample lifetime" })
        } else if self.max_samples is None {
            Some(ConfigurationError::MissingTrackerField { field: "maximum samples" })
        } else if self.min_samples is None {
            Some(ConfigurationError::MissingTrackerField { field: "minimum samples" })
        } else if self.max_samples == Some(0u32) {
            Some(ConfigurationError::InvalidTrackerValue { field: "maximum samples" })
        } else if self.buffer_size == Some(0u32) {
            Some(ConfigurationError::InvalidTrackerValue { field: "buffer size" })
        } else if self.min_samples == Some(0u32) {
            Some(ConfigurationError::InvalidTrackerValue { field: "minimum samples" })
        } else {
            None
        }
    }

    /// The tracker that complete settings define.
    pub open spec fn tracker(self) -> LatencyTrackerView {
        LatencyTrackerView {
            name: self.name,
            sample_ttl_ms: duration::millis_of(self.sample_ttl->0) as u32,
            max_samples: self.max_samples->0,
            buffer_size: self.buffer_size,
            min_samples: self.min_samples->0,
        }
    }
}

/// Which settings make a tracker: a valid name, a sample lifetime of a positive
/// whole number of milliseconds, and a maximum and a minimum of samples; no
/// count may be zero, the storage among them if it is set. The tracker then has
/// the settings.
pub proof fn lemma_which_settings_make_a_tracker(settings: LatencyTrackerBuilderView)
    ensures
        settings.refused() is None <==> {
            &&& valid_name(settings.name)
            &&& settings.sample_ttl matches Some(ttl) && duration::is_whole_millis(
                ttl,
                0xffff_ffff,
            )
            &&& settings.max_samples matches Some(most) && most >= 1
            &&& settings.min_samples matches Some(least) && least >= 1
            &&& settings.buffer_size matches Some(size) ==> size >= 1
        },
        settings.refused() is None ==> {
            let tracker = settings.tracker();
            &&& tracker.valid()
            &&& tracker.name == settings.name
            &&& duration::duration_nanos(settings.sample_ttl->0) == tracker.sample_ttl_ms
                * 1_000_000
            &&& settings.max_samples == Some(tracker.max_samples)
            &&& settings.min_samples == Some(tracker.min_samples)
            &&& settings.buffer_size == tracker.buffer_size
        },
{
}

/// What keeps settings from being a tracker is told: the name, what is missing,
/// a lifetime that is no whole number of milliseconds, a count of zero. What
/// is told is so.
pub proof fn lemma_what_refused_settings_lack(settings: LatencyTrackerBuilderView)
    ensures
        match settings.refused() {
            None => true,
            Some(ConfigurationError::InvalidName { .. }) => !valid_name(settings.name),
            Some(ConfigurationError::InvalidDuration { .. }) => settings.sample_ttl matches Some(ttl)
                && !duration::is_whole_millis(ttl, 0xffff_ffff),
            Some(ConfigurationError::MissingTrackerField { field }) => {
                ||| field == "sample lifetime" && settings.sample_ttl is None
                ||| field == "maximum samples" && settings.max_samples is None
                ||| field == "minimum samples" && settings.min_samples is None
            },
            Some(ConfigurationError::InvalidTrackerValue { field }) => {
                ||| field == "maximum samples" && settings.max_samples == Some(0u32)
                ||| field == "buffer size" && settings.buffer_size == Some(0u32)
                ||| field == "minimum samples" && settings.min_samples == Some(0u32)
            },
            _ => false,
        },
{
}

impl LatencyTrackerBuilder {
    /// Sets the maximum sample lifetime.
    pub fn sample_ttl(self, sample_ttl: Duration) -> (builder: Self)
        ensures
            builder@ == (LatencyTrackerBuilderView { sample_ttl: Some(sample_ttl), ..self@ }),
    {
        LatencyTrackerBuilder { sample_ttl: Some(sample_ttl), ..self }
    }

    /// Sets the maximum number of samples considered.
    pub fn max_samples(self, max_samples: u32) -> (builder: Self)
        ensures
            builder@ == (LatencyTrackerBuilderView { max_samples: Some(max_samples), ..self@ }),
    {
        LatencyTrackerBuilder { max_samples: Some(max_samples), ..self }
    }

    /// Sets the requested tracker storage.
    pub fn buffer_size(self, buffer_size: u32) -> (builder: Self)
        ensures
            builder@ == (LatencyTrackerBuilderView { buffer_size: Some(buffer_size), ..self@ }),
    {
        LatencyTrackerBuilder { buffer_size: Some(buffer_size), ..self }
    }

    /// Sets the warm-up population required before guards take effect.
    pub fn min_samples(self, min_samples: u32) -> (builder: Self)
        ensures
            builder@ == (LatencyTrackerBuilderView { min_samples: Some(min_samples), ..self@ }),
    {
        LatencyTrackerBuilder { min_samples: Some(min_samples), ..self }
    }

    /// Validates and builds the tracker definition.
    ///
    /// # Errors
    ///
    /// Returns [`Error`] when the name is empty, a required setting is absent,
    /// a count is zero, or the sample lifetime cannot be represented as a
    /// positive whole number of milliseconds.
    pub fn build(self) -> (tracker: Result<LatencyTracker, Error>)
        ensures
            match tracker {
                Ok(t) => self@.refused() is None && t@ == self@.tracker(),
                Err(e) => self@.refused() matches Some(reason) && e
                    == Error::InvalidConfiguration(reason),
            },
    {
        if !is_valid_name(self.name.as_str()) {
            return Err(
                Error::InvalidConfiguration(
                    ConfigurationError::InvalidName { kind: "latency tracker" },
                ),
            );
        }
        let sample_ttl: Duration = match self.sample_ttl {
            Some(ttl) => ttl,
            None => return Err(
                Error::InvalidConfiguration(
                    ConfigurationError::MissingTrackerField { field: "sample lifetime" },
                ),
            ),
        };
        let sample_ttl_ms: u32 = match duration_to_u32_ms(sample_ttl, "sample lifetime") {
            Ok(ms) => ms,
            Err(e) => return Err(e),
        };
        let max_samples: u32 = match self.max_samples {
            Some(n) => n,
            None => return Err(
                Error::InvalidConfiguration(
                    ConfigurationError::MissingTrackerField { field: "maximum samples" },
                ),
            ),
        };
        let min_samples: u32 = match self.min_samples {
            Some(n) => n,
            None => return Err(
                Error::InvalidConfiguration(
                    ConfigurationError::MissingTrackerField { field: "minimum samples" },
                ),
            ),
        };
        if max_samples == 0 {
            return Err(
                Error::InvalidConfiguration(
                    ConfigurationError::InvalidTrackerValue { field: "maximum samples" },
                ),
            );
        }
        let (buffer_size, storage_refused): (u32, bool) = match self.buffer_size {
            Some(size) => (size, size == 0),
            None => (0, false),
        };
        if storage_refused {
            return Err(
                Error::InvalidConfiguration(
                    ConfigurationError::InvalidTrackerValue { field: "buffer size" },
                ),
            );
        }
        if min_samples == 0 {
            return Err(
                Error::InvalidConfiguration(
                    ConfigurationError::InvalidTrackerValue { field: "minimum samples" },
                ),
            );
        }
        let id: LatencyTrackerId = LatencyTrackerId::from_bytes(
            derive_latency_tracker_id(self.name.as_str(), sample_ttl_ms, max_samples, min_samples),
        );
        Ok(
            LatencyTracker {
                name: self.name,
                sample_ttl_ms,
                max_samples,
                buffer_size,
                min_samples,
                id,
            },
        )
    }
}

/// A valid Ratelimitly admission decision.
#[derive(Debug, Clone, Copy, PartialEq, Eq, Structural)]
pub enum Decision {
    /// Every condition passed and requested quantities were consumed.
    Granted,
    /// At least one condition failed and the work is not authorized.
    Rejected,
}

/// One resource's detailed result.
#[derive(Debug, Clone, Copy, PartialEq, Eq)]
pub struct ResourceResult {
    resource_id: ResourceId,
    tokens_deficit: u16,
    actual_rate: u32,
}

impl View for ResourceResult {
    type V = protocol::ResourceResultView;

    closed spec fn view(&self) -> protocol::ResourceResultView {
        protocol::ResourceResultView {
            bucket_id: self.resource_id@,
            tokens_deficit: self.tokens_deficit,
            actual_rate: self.actual_rate,
        }
    }
}

impl ResourceResult {
    /// The public form of a protocol result.
    pub(crate) fn of_protocol(item: &protocol::ResourceResult) -> (result: Self)
        ensures
            result@ == item@,
    {
        ResourceResult {
            resource_id: ResourceId::from_bytes(item.bucket_id),
            tokens_deficit: item.tokens_deficit,
            actual_rate: item.actual_rate,
        }
    }

    /// Returns the resource identity this result describes.
    pub fn resource_id(&self) -> (id: ResourceId)
        ensures
            id@ == self@.bucket_id,
    {
        self.resource_id
    }

    /// Returns the quantity the resource could not supply.
    pub fn tokens_deficit(&self) -> (deficit: u16)
        ensures
            deficit == self@.tokens_deficit,
    {
        self.tokens_deficit
    }

    /// Returns the current consumed-token count reported for the window.
    pub fn actual_rate(&self) -> (rate: u32)
        ensures
            rate == self@.actual_rate,
    {
        self.actual_rate
    }
}

/// One latency guard's detailed result.
#[derive(Debug, Clone, Copy, PartialEq, Eq)]
pub struct GuardResult {
    tracker_id: LatencyTrackerId,
    threshold_ms: u32,
    current_latency_ms: u32,
    passed: bool,
}

impl View for GuardResult {
    type V = protocol::GuardResultView;

    closed spec fn view(&self) -> protocol::GuardResultView {
        protocol::GuardResultView {
            latency_tracker_id: self.tracker_id@,
            threshold_ms: self.threshold_ms,
            current_latency_ms: self.current_latency_ms,
            passed: self.passed,
        }
    }
}

impl GuardResult {
    /// The public form of a protocol result.
    pub(crate) fn of_protocol(item: &protocol::GuardResult) -> (result: Self)
        ensures
            result@ == item@,
    {
        GuardResult {
            tracker_id: LatencyTrackerId::from_bytes(item.latency_tracker_id),
            threshold_ms: item.threshold_ms,
            current_latency_ms: item.current_latency_ms,
            passed: item.passed,
        }
    }

    /// Returns the latency-tracker identity this result describes.
    pub fn tracker_id(&self) -> (id: LatencyTrackerId)
        ensures
            id@ == self@.latency_tracker_id,
    {
        self.tracker_id
    }

    /// Returns the guard threshold.
    pub fn threshold(&self) -> (threshold: Duration)
        ensures
            duration::duration_nanos(threshold) == self@.threshold_ms as nat * 1_000_000,
    {
        Duration::from_millis(self.threshold_ms as u64)
    }

    /// Returns the latency observed by the selected server.
    pub fn current_latency(&self) -> (latency: Duration)
        ensures
            duration::duration_nanos(latency) == self@.current_latency_ms as nat * 1_000_000,
    {
        Duration::from_millis(self.current_latency_ms as u64)
    }

    /// Returns whether the current latency was below the threshold.
    pub fn passed(&self) -> (passed: bool)
        ensures
            passed == self@.passed,
    {
        self.passed
    }
}

/// A valid response selected for one resource request.
#[derive(Debug, Clone, PartialEq, Eq)]
pub struct Response {
    decision: Decision,
    resource_results: Vec<ResourceResult>,
    guard_results: Vec<GuardResult>,
    selected_server_id: Option<u64>,
}

/// The content of a [`Response`].
pub ghost struct ResponseView {
    pub decision: Decision,
    pub resource_results: Seq<protocol::ResourceResultView>,
    pub guard_results: Seq<protocol::GuardResultView>,
    pub selected_server_id: Option<u64>,
}

impl View for Response {
    type V = ResponseView;

    closed spec fn view(&self) -> ResponseView {
        ResponseView {
            decision: self.decision,
            resource_results: Seq::new(
                self.resource_results@.len(),
                |i: int| self.resource_results@[i]@,
            ),
            guard_results: Seq::new(self.guard_results@.len(), |i: int| self.guard_results@[i]@),
            selected_server_id: self.selected_server_id,
        }
    }
}

impl ResponseView {
    /// What the application gets to see of a server's result: granted on
    /// success, rejected otherwise; the server that gave it.
    pub open spec fn of_result(result: protocol::RateLimitResultView) -> ResponseView {
        ResponseView {
            decision: if result.success {
                Decision::Granted
            } else {
                Decision::Rejected
            },
            resource_results: result.resource_results,
            guard_results: result.guard_results,
            selected_server_id: Some(result.server_id),
        }
    }

    /// The answer to an empty request: a grant by no server, with nothing to
    /// report.
    pub open spec fn local_grant() -> ResponseView {
        ResponseView {
            decision: Decision::Granted,
            resource_results: Seq::empty(),
            guard_results: Seq::empty(),
            selected_server_id: None,
        }
    }
}

/// A response tells what the server's result tells: a grant exactly on success,
/// every detail as it is, and the server.
pub proof fn lemma_response_tells_the_result(result: protocol::RateLimitResultView)
    ensures
        ({
            let response = ResponseView::of_result(result);
            &&& response.decision is Granted <==> result.success
            &&& response.decision is Rejected <==> !result.success
            &&& response.resource_results == result.resource_results
            &&& response.guard_results == result.guard_results
            &&& response.selected_server_id == Some(result.server_id)
        }),
        ({
            let local = ResponseView::local_grant();
            &&& local.decision is Granted
            &&& local.resource_results.len() == 0
            &&& local.guard_results.len() == 0
            &&& local.selected_server_id is None
        }),
{
}

impl Response {
    /// The answer to an empty request, which no server is asked for.
    pub fn local() -> (response: Self)
        ensures
            response@ == (ResponseView {
                decision: Decision::Granted,
                resource_results: Seq::empty(),
                guard_results: Seq::empty(),
                selected_server_id: None,
            }),
    {
        let response: Response = Response {
            decision: Decision::Granted,
            resource_results: Vec::new(),
            guard_results: Vec::new(),
            selected_server_id: None,
        };
        assert(response@.resource_results =~= Seq::empty());
        assert(response@.guard_results =~= Seq::empty());
        response
    }

    /// What the application gets to see of a server's result.
    pub fn from_result(result: protocol::RateLimitResult) -> (response: Self)
        ensures
            response@ == ResponseView::of_result(result@),
    {
        let mut resource_results: Vec<ResourceResult> = Vec::new();
        let mut i: usize = 0;
        while i < result.resource_results.len()
            invariant
                i <= result.resource_results@.len(),
                resource_results@.len() == i,
                forall|j: int|
                    0 <= j < i ==> (#[trigger] resource_results@[j])@
                        == result.resource_results@[j]@,
            decreases result.resource_results@.len() - i,
        {
            resource_results.push(ResourceResult::of_protocol(&result.resource_results[i]));
            i = i + 1;
        }
        let mut guard_results: Vec<GuardResult> = Vec::new();
        i = 0;
        while i < result.guard_results.len()
            invariant
                i <= result.guard_results@.len(),
                guard_results@.len() == i,
                forall|j: int|
                    0 <= j < i ==> (#[trigger] guard_results@[j])@ == result.guard_results@[j]@,
            decreases result.guard_results@.len() - i,
        {
            guard_results.push(GuardResult::of_protocol(&result.guard_results[i]));
            i = i + 1;
        }
        let response: Response = Response {
            decision: if result.success {
                Decision::Granted
            } else {
                Decision::Rejected
            },
            resource_results,
            guard_results,
            selected_server_id: Some(result.server_id),
        };
        assert(response@.resource_results =~= result@.resource_results);
        assert(response@.guard_results =~= result@.guard_results);
        response
    }

    /// Returns the grant or rejection decision.
    pub fn decision(&self) -> (decision: Decision)
        ensures
            decision == self@.decision,
    {
        self.decision
    }

    /// Returns detailed resource results.
    pub fn resource_results(&self) -> (results: &[ResourceResult])
        ensures
            results@.len() == self@.resource_results.len(),
            forall|i: int|
                0 <= i < results@.len() ==> (#[trigger] results@[i])@ == self@.resource_results[i],
    {
        self.resource_results.as_slice()
    }

    /// Returns detailed latency-guard results.
    pub fn guard_results(&self) -> (results: &[GuardResult])
        ensures
            results@.len() == self@.guard_results.len(),
            forall|i: int|
                0 <= i < results@.len() ==> (#[trigger] results@[i])@ == self@.guard_results[i],
    {
        self.guard_results.as_slice()
    }

    /// Returns the selected server ID, or `None` for a local empty request.
    pub fn selected_server_id(&self) -> (server_id: Option<u64>)
        ensures
            server_id == self@.selected_server_id,
    {
        self.selected_server_id
    }
}

} // verus!
