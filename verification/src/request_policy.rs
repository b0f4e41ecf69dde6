//! The timing policy of resource requests.

use std::time::Duration;

use vstd::arithmetic::power;
use vstd::prelude::*;

use crate::duration;
use crate::duration::whole_millis;
use crate::error::{ConfigurationError, Error};

verus! {

/// The largest number of replays that a policy may ask for.
pub const MAX_REPLAY_COUNT: u32 = 65_535;

#[derive(Debug, Clone, Copy, PartialEq, Eq, Structural)]
enum ScheduleKind {
    Fixed,
    Linear,
    Exponential,
}

/// The duration schedule for resource-request transmission rounds.
#[derive(Debug, Clone, Copy, PartialEq, Eq)]
pub struct Schedule {
    kind: ScheduleKind,
    initial_units: u32,
    max_units: u32,
    growth: u32,
}

/// What a [`Schedule`] is.
pub ghost enum ScheduleView {
    Fixed { units: nat },
    Linear { initial: nat, step: nat, max: nat },
    Exponential { initial: nat, factor: nat, max: nat },
}

impl View for Schedule {
    type V = ScheduleView;

    closed spec fn view(&self) -> ScheduleView {
        match self.kind {
            ScheduleKind::Fixed => ScheduleView::Fixed { units: self.initial_units as nat },
            ScheduleKind::Linear => ScheduleView::Linear {
                initial: self.initial_units as nat,
                step: self.growth as nat,
                max: self.max_units as nat,
            },
            ScheduleKind::Exponential => ScheduleView::Exponential {
                initial: self.initial_units as nat,
                factor: self.growth as nat,
                max: self.max_units as nat,
            },
        }
    }
}

/// The smaller of two numbers.
pub open spec fn least(a: nat, b: nat) -> nat {
    if a <= b {
        a
    } else {
        b
    }
}

impl ScheduleView {
    /// Whether every round has a positive duration, and a growing schedule
    /// grows towards a bound that it starts within.
    pub open spec fn valid(self) -> bool {
        match self {
            ScheduleView::Fixed { units } => units > 0,
            ScheduleView::Linear { initial, step, max } => 0 < initial <= max && step > 0,
            ScheduleView::Exponential { initial, factor, max } => 0 < initial <= max && factor >= 2,
        }
    }

    /// The duration of a round, in units.
    pub open spec fn units(self, round: nat) -> nat {
        match self {
            ScheduleView::Fixed { units } => units,
            ScheduleView::Linear { initial, step, max } => least(max, initial + round * step),
            ScheduleView::Exponential { initial, factor, max } => least(
                max,
                (initial * power::pow(factor as int, round)) as nat,
            ),
        }
    }

    /// The largest duration of a round, in units.
    pub open spec fn bound(self) -> nat {
        match self {
            ScheduleView::Fixed { units } => units,
            ScheduleView::Linear { initial, step, max } => max,
            ScheduleView::Exponential { initial, factor, max } => max,
        }
    }

    /// The rounds `0..count` together, in units.
    pub open spec fn total_units(self, count: nat) -> nat
        decreases count,
    {
        if count == 0 {
            0
        } else {
            self.total_units((count - 1) as nat) + self.units((count - 1) as nat)
        }
    }
}

/// Round durations never shrink from one round to the next, are positive, and
/// stay within the schedule's bound.
pub proof fn lemma_schedule_grows_within_bound(schedule: ScheduleView, round: nat)
    requires
        schedule.valid(),
    ensures
        0 < schedule.units(round) <= schedule.units(round + 1) <= schedule.bound(),
{
    match schedule {
        ScheduleView::Fixed { units } => {},
        ScheduleView::Linear { initial, step, max } => {
            assert(round * step + step == (round + 1) * step && round * step >= 0)
                by (nonlinear_arith);
        },
        ScheduleView::Exponential { initial, factor, max } => {
            lemma_growth(initial, factor, round, round + 1);
        },
    }
}

/// Exponential growth is monotone, and positive from a positive start.
proof fn lemma_growth(initial: nat, factor: nat, a: nat, b: nat)
    requires
        initial > 0,
        factor >= 2,
        a <= b,
    ensures
        0 < initial * power::pow(factor as int, a) <= initial * power::pow(factor as int, b),
        a < b ==> initial * power::pow(factor as int, a) * factor <= initial * power::pow(
            factor as int,
            b,
        ),
    decreases b - a,
{
    power::lemma_pow_positive(factor as int, a);
    let pa = power::pow(factor as int, a);
    assert(initial * pa > 0) by (nonlinear_arith)
        requires
            initial > 0,
            pa > 0,
    ;
    if a < b {
        let c = (b - 1) as nat;
        lemma_growth(initial, factor, a, c);
        reveal(power::pow);
        let pc = power::pow(factor as int, c);
        let pb = power::pow(factor as int, b);
        assert(pb == factor * pc);
        assert(initial * pb == initial * pc * factor) by (nonlinear_arith)
            requires
                pb == factor * pc,
        ;
        assert(initial * pa * factor <= initial * pc * factor) by (nonlinear_arith)
            requires
                initial * pa <= initial * pc,
        ;
        assert(initial * pa <= initial * pa * factor) by (nonlinear_arith)
            requires
                initial * pa > 0,
                factor >= 2,
        ;
    }
}

/// What the durations of the rounds are: always the same under a fixed
/// schedule; under the others they start at the initial duration, and each next
/// one is a step longer, or the factor times as long, until the bound is
/// reached.
pub proof fn lemma_schedule_round_by_round(schedule: ScheduleView, round: nat)
    requires
        schedule.valid(),
    ensures
        match schedule {
            ScheduleView::Fixed { units } => schedule.units(round) == units,
            ScheduleView::Linear { initial, step, max } => {
                let now = schedule.units(round);
                &&& schedule.units(0) == initial
                &&& now + step <= max ==> schedule.units(round + 1) == now + step
                &&& now + step > max ==> schedule.units(round + 1) == max
            },
            ScheduleView::Exponential { initial, factor, max } => {
                let now = schedule.units(round);
                &&& schedule.units(0) == initial
                &&& now * factor <= max ==> schedule.units(round + 1) == now * factor
                &&& now * factor > max ==> schedule.units(round + 1) == max
            },
        },
{
    match schedule {
        ScheduleView::Fixed { units } => {},
        ScheduleView::Linear { initial, step, max } => {
            assert(round * step + step == (round + 1) * step && round * step >= 0 && 0 * step == 0)
                by (nonlinear_arith);
        },
        ScheduleView::Exponential { initial, factor, max } => {
            power::lemma_pow0(factor as int);
            lemma_growth(initial, factor, round, round + 1);
            reveal(power::pow);
            let p = power::pow(factor as int, round);
            assert(power::pow(factor as int, round + 1) == factor * p);
            assert(initial * (factor * p) == initial * p * factor && initial * 1 == initial)
                by (nonlinear_arith);
            assert(max * factor > max) by (nonlinear_arith)
                requires
                    max > 0,
                    factor >= 2,
            ;
        },
    }
}

/// Which schedules a policy may have: every duration is positive, a growing
/// schedule does grow, and it does not start beyond its bound.
pub proof fn lemma_valid_schedules(schedule: ScheduleView)
    ensures
        match schedule {
            ScheduleView::Fixed { units } => schedule.valid() <==> units >= 1,
            ScheduleView::Linear { initial, step, max } => schedule.valid() <==> initial >= 1
                && step >= 1 && initial <= max,
            ScheduleView::Exponential { initial, factor, max } => schedule.valid() <==> initial >= 1
                && factor >= 2 && initial <= max,
        },
{
}

impl Schedule {
    #[verifier::type_invariant]
    spec fn constructed(self) -> bool {
        self.kind == ScheduleKind::Fixed ==> self.max_units == self.initial_units && self.growth
            == 0
    }

    /// Uses the same number of time units for every round.
    ///
    /// The value is validated when the containing [`RequestPolicy`] is built.
    pub fn fixed(units: u32) -> (schedule: Self)
        ensures
            schedule@ == (ScheduleView::Fixed { units: units as nat }),
    {
        Schedule { kind: ScheduleKind::Fixed, initial_units: units, max_units: units, growth: 0 }
    }

    /// Increases the round duration by `step_units`, capped at `max_units`.
    ///
    /// The values are validated when the containing [`RequestPolicy`] is built.
    pub fn linear(initial_units: u32, step_units: u32, max_units: u32) -> (schedule: Self)
        ensures
            schedule@ == (ScheduleView::Linear {
                initial: initial_units as nat,
                step: step_units as nat,
                max: max_units as nat,
            }),
    {
        Schedule { kind: ScheduleKind::Linear, initial_units, max_units, growth: step_units }
    }

    /// Multiplies the round duration by `factor`, capped at `max_units`.
    ///
    /// The values are validated when the containing [`RequestPolicy`] is built.
    pub fn exponential(initial_units: u32, factor: u32, max_units: u32) -> (schedule: Self)
        ensures
            schedule@ == (ScheduleView::Exponential {
                initial: initial_units as nat,
                factor: factor as nat,
                max: max_units as nat,
            }),
    {
        Schedule { kind: ScheduleKind::Exponential, initial_units, max_units, growth: factor }
    }

    /// The duration of a round, in units.
    pub fn units(self, round: u32) -> (units: Result<u32, ConfigurationError>)
        ensures
            match units {
                Ok(u) => self@.valid() && u as nat == self@.units(round as nat),
                Err(e) => !self@.valid() && e == ConfigurationError::InvalidRequestPolicy,
            },
    {
        proof {
            use_type_invariant(&self);
        }
        if self.initial_units == 0 || self.max_units < self.initial_units {
            return Err(ConfigurationError::InvalidRequestPolicy);
        }
        match self.kind {
            ScheduleKind::Fixed => Ok(self.initial_units),
            ScheduleKind::Linear => {
                if self.growth == 0 {
                    return Err(ConfigurationError::InvalidRequestPolicy);
                }
                let room: u32 = self.max_units - self.initial_units;
                proof {
                    let (q, r, g) = (room / self.growth, round, self.growth);
                    if r > q {
                        assert(r * g > room) by (nonlinear_arith)
                            requires
                                r > q,
                                q == room / g,
                                g > 0,
                        ;
                    } else {
                        assert(r * g <= room) by (nonlinear_arith)
                            requires
                                r <= q,
                                q == room / g,
                                g > 0,
                        ;
                    }
                }
                if round > room / self.growth {
                    Ok(self.max_units)
                } else {
                    Ok(self.initial_units + round * self.growth)
                }
            },
            ScheduleKind::Exponential => {
                if self.growth < 2 {
                    return Err(ConfigurationError::InvalidRequestPolicy);
                }
                let mut value: u32 = self.initial_units;
                let mut i: u32 = 0;
                assert(power::pow(self.growth as int, 0) == 1) by {
                    power::lemma_pow0(self.growth as int);
                }
                while i < round
                    invariant
                        i <= round,
                        self.kind == ScheduleKind::Exponential,
                        self.growth >= 2,
                        0 < self.initial_units <= self.max_units,
                        0 < value <= self.max_units,
                        value == self.initial_units * power::pow(self.growth as int, i as nat),
                    decreases round - i,
                {
                    let ghost (g, m) = (self.growth, self.max_units);
                    proof {
                        lemma_growth(self.initial_units as nat, g as nat, i as nat, round as nat);
                        lemma_growth(self.initial_units as nat, g as nat, i as nat, (i + 1) as nat);
                        if value > m / g {
                            assert(value * g > m) by (nonlinear_arith)
                                requires
                                    value > m / g,
                                    g >= 2,
                            ;
                        } else {
                            assert(value * g <= m) by (nonlinear_arith)
                                requires
                                    value <= m / g,
                                    g >= 2,
                            ;
                        }
                    }
                    if value >= self.max_units || value > self.max_units / self.growth {
                        return Ok(self.max_units);
                    }
                    proof {
                        reveal(power::pow);
                        let pi = power::pow(g as int, i as nat);
                        let init = self.initial_units;
                        assert(power::pow(g as int, (i + 1) as nat) == g * pi);
                        assert(value * g == init * (g * pi)) by (nonlinear_arith)
                            requires
                                value == init * pi,
                        ;
                    }
                    value = value * self.growth;
                    i = i + 1;
                }
                if value <= self.max_units {
                    Ok(value)
                } else {
                    Ok(self.max_units)
                }
            },
        }
    }
}

/// The sole HA policy used for non-empty resource requests.
#[derive(Debug, Clone, Copy, PartialEq, Eq)]
pub struct RequestPolicy {
    unit_ms: u64,
    replay_count: u32,
    replay_gap: Schedule,
    final_receive_units: u32,
    completion_delivery: bool,
}

/// What a [`RequestPolicy`] is.
pub ghost struct RequestPolicyView {
    /// The base duration, in milliseconds.
    pub unit_ms: nat,
    /// The replays after the initial send.
    pub replay_count: nat,
    /// The durations of the rounds.
    pub replay_gap: ScheduleView,
    /// The length of the receive-only phase, in units.
    pub final_receive_units: nat,
    /// Whether missing servers get the request before a decision is returned.
    pub completion_delivery: bool,
}

impl View for RequestPolicy {
    type V = RequestPolicyView;

    closed spec fn view(&self) -> RequestPolicyView {
        RequestPolicyView {
            unit_ms: self.unit_ms as nat,
            replay_count: self.replay_count as nat,
            replay_gap: self.replay_gap@,
            final_receive_units: self.final_receive_units as nat,
            completion_delivery: self.completion_delivery,
        }
    }
}

impl RequestPolicyView {
    /// `H = U × (B(0) + B(1) + ... + B(N) + F)`, in milliseconds.
    pub open spec fn horizon(self) -> nat {
        self.unit_ms * (self.replay_gap.total_units(self.replay_count + 1)
            + self.final_receive_units)
    }

    /// Whether the policy can be carried out: it has a unit, a bounded number
    /// of replays, a valid schedule, and a horizon that the wire can hold.
    pub open spec fn valid(self) -> bool {
        &&& self.unit_ms > 0
        &&& self.replay_count <= MAX_REPLAY_COUNT
        &&& self.replay_gap.valid()
        &&& self.horizon() <= u32::MAX
    }
}

/// The rounds of a valid schedule together are bounded and positive.
proof fn lemma_total_units(schedule: ScheduleView, count: nat, bound: nat)
    requires
        schedule.valid(),
        schedule.bound() <= bound,
    ensures
        schedule.total_units(count) <= count * bound,
        count > 0 ==> schedule.total_units(count) > 0,
    decreases count,
{
    if count > 0 {
        let c = (count - 1) as nat;
        lemma_total_units(schedule, c, bound);
        lemma_schedule_grows_within_bound(schedule, c);
        assert(c * bound + bound == count * bound) by (nonlinear_arith)
            requires
                c + 1 == count,
        ;
    }
}

/// A valid policy takes time.
pub proof fn lemma_horizon_positive(policy: RequestPolicyView)
    requires
        policy.valid(),
    ensures
        policy.horizon() > 0,
{
    let count = policy.replay_count + 1;
    lemma_total_units(policy.replay_gap, count, policy.replay_gap.bound());
    let total = policy.replay_gap.total_units(count) + policy.final_receive_units;
    assert(policy.unit_ms * total > 0) by (nonlinear_arith)
        requires
            policy.unit_ms > 0,
            total > 0,
    ;
}

impl RequestPolicy {
    /// Every policy was validated when it was built.
    #[verifier::type_invariant]
    pub open spec fn validated(self) -> bool {
        self@.valid()
    }

    /// Starts a request-policy builder initialized with the default policy.
    pub fn builder() -> (builder: RequestPolicyBuilder)
        ensures
            builder@ == RequestPolicyBuilderView::initial(),
    {
        RequestPolicyBuilder::default()
    }

    /// Returns the maximum duration of one request under this policy.
    ///
    /// This horizon becomes the request's deduplication lifetime after it is
    /// checked against the API key during
    /// [`ClientBuilder::build`](crate::ClientBuilder::build).
    pub fn horizon(self) -> (horizon: Duration)
        ensures
            self@.valid(),
            duration::duration_nanos(horizon) == self@.horizon() * 1_000_000,
    {
        proof {
            use_type_invariant(&self);
        }
        let millis: u32 = match self.horizon_ms(u32::MAX) {
            Ok(ms) => ms,
            Err(_) => 0,
        };
        Duration::from_millis(millis as u64)
    }

    /// The horizon in milliseconds, unless it exceeds the API key's limit.
    pub fn horizon_ms(self, dedup_ttl_ms_max: u32) -> (horizon: Result<u32, ConfigurationError>)
        ensures
            self@.valid(),
            match horizon {
                Ok(ms) => ms as nat == self@.horizon() && ms <= dedup_ttl_ms_max,
                Err(e) => if dedup_ttl_ms_max == 0 {
                    e == ConfigurationError::InvalidRequestPolicy
                } else {
                    self@.horizon() > dedup_ttl_ms_max && e
                        == ConfigurationError::RequestPolicyExceedsApiKey
                },
            },
            dedup_ttl_ms_max == 0 ==> horizon is Err,
    {
        proof {
            use_type_invariant(&self);
        }
        schedule_horizon_ms(
            self.unit_ms,
            self.replay_count,
            self.replay_gap,
            self.final_receive_units,
            dedup_ttl_ms_max,
        )
    }

    /// The base duration, in milliseconds.
    pub fn unit_ms(&self) -> (unit_ms: u64)
        ensures
            unit_ms as nat == self@.unit_ms,
    {
        self.unit_ms
    }

    /// The replays after the initial send.
    pub fn replay_count(&self) -> (count: u32)
        ensures
            count as nat == self@.replay_count,
    {
        self.replay_count
    }

    /// The durations of the rounds.
    pub fn replay_gap(&self) -> (schedule: Schedule)
        ensures
            schedule@ == self@.replay_gap,
    {
        self.replay_gap
    }

    /// The length of the receive-only phase, in units.
    pub fn final_receive_units(&self) -> (units: u32)
        ensures
            units as nat == self@.final_receive_units,
    {
        self.final_receive_units
    }

    /// Whether missing servers get the request before a decision is returned.
    pub fn completion_delivery(&self) -> (enabled: bool)
        ensures
            enabled == self@.completion_delivery,
    {
        self.completion_delivery
    }
}

/// The horizon of a policy, in milliseconds, unless the policy is invalid or
/// its horizon exceeds `dedup_ttl_ms_max`.
pub open spec fn checked_horizon(policy: RequestPolicyView, dedup_ttl_ms_max: nat) -> Result<
    nat,
    ConfigurationError,
> {
    if !policy.valid() || dedup_ttl_ms_max == 0 {
        Err(ConfigurationError::InvalidRequestPolicy)
    } else if policy.horizon() > dedup_ttl_ms_max {
        Err(ConfigurationError::RequestPolicyExceedsApiKey)
    } else {
        Ok(policy.horizon())
    }
}

/// The horizon that the parts of a policy have together.
pub fn schedule_horizon_ms(
    unit_ms: u64,
    replay_count: u32,
    replay_gap: Schedule,
    final_receive_units: u32,
    dedup_ttl_ms_max: u32,
) -> (horizon: Result<u32, ConfigurationError>)
    ensures
        ({
            let policy = RequestPolicyView {
                unit_ms: unit_ms as nat,
                replay_count: replay_count as nat,
                replay_gap: replay_gap@,
                final_receive_units: final_receive_units as nat,
                completion_delivery: true,
            };
            match horizon {
                Ok(ms) => checked_horizon(policy, dedup_ttl_ms_max as nat) == Ok::<
                    _,
                    ConfigurationError,
                >(ms as nat),
                Err(e) => checked_horizon(policy, dedup_ttl_ms_max as nat) == Err::<nat, _>(e),
            }
        }),
{
    if unit_ms == 0 || replay_count > MAX_REPLAY_COUNT || dedup_ttl_ms_max == 0 {
        return Err(ConfigurationError::InvalidRequestPolicy);
    }
    let mut total_units: u64 = final_receive_units as u64;
    let mut round: u32 = 0;
    while round <= replay_count
        invariant
            round <= replay_count + 1,
            replay_count <= MAX_REPLAY_COUNT,
            round > 0 ==> replay_gap@.valid(),
            total_units == final_receive_units + replay_gap@.total_units(round as nat),
            total_units <= 0xffff_ffff + round * 0xffff_ffff,
        decreases replay_count + 1 - round,
    {
        let units: u32 = match replay_gap.units(round) {
            Ok(u) => u,
            Err(e) => return Err(e),
        };
        total_units = total_units + units as u64;
        round = round + 1;
    }
    proof {
        let count = (replay_count + 1) as nat;
        lemma_total_units(replay_gap@, count, replay_gap@.bound());
    }
    let ghost h = total_units * unit_ms;
    assert(h == unit_ms * total_units) by (nonlinear_arith)
        requires
            h == total_units * unit_ms,
    ;
    match total_units.checked_mul(unit_ms) {
        Some(horizon) => if horizon > u32::MAX as u64 {
            Err(ConfigurationError::InvalidRequestPolicy)
        } else if horizon > dedup_ttl_ms_max as u64 {
            Err(ConfigurationError::RequestPolicyExceedsApiKey)
        } else {
            Ok(horizon as u32)
        },
        None => Err(ConfigurationError::InvalidRequestPolicy),
    }
}

impl RequestPolicyView {
    /// The default policy: 20 ms units, one replay, fixed rounds of one unit, a
    /// final phase of one unit, completion delivery.
    pub open spec fn initial() -> RequestPolicyView {
        RequestPolicyView {
            unit_ms: 20,
            replay_count: 1,
            replay_gap: ScheduleView::Fixed { units: 1 },
            final_receive_units: 1,
            completion_delivery: true,
        }
    }
}

/// The default policy ends within 60 milliseconds.
pub proof fn lemma_default_horizon()
    ensures
        RequestPolicyView::initial().horizon() == 60,
        RequestPolicyView::initial().valid(),
{
    let schedule = ScheduleView::Fixed { units: 1 };
    reveal_with_fuel(ScheduleView::total_units, 3);
    assert(schedule.total_units(2) == 2);
}

/// The horizon adds up: the first round and the final phase, and one round more
/// for each replay.
pub proof fn lemma_horizon_adds_up(policy: RequestPolicyView)
    ensures
        policy.replay_count == 0 ==> policy.horizon() == policy.unit_ms * policy.replay_gap.units(0)
            + policy.unit_ms * policy.final_receive_units,
        policy.replay_count > 0 ==> policy.horizon() == (RequestPolicyView {
            replay_count: (policy.replay_count - 1) as nat,
            ..policy
        }).horizon() + policy.unit_ms * policy.replay_gap.units(policy.replay_count),
{
    let (u, f) = (policy.unit_ms, policy.final_receive_units);
    let n = policy.replay_count;
    let (a, b) = (policy.replay_gap.total_units(n), policy.replay_gap.units(n));
    assert(policy.replay_gap.total_units(n + 1) == a + b);
    assert(u * (a + b + f) == u * (a + f) + u * b && u * (0 + b + f) == u * b + u * f)
        by (nonlinear_arith);
}

/// Which policies can be carried out, and which of them a key admits: those
/// whose horizon is within the key's limit, and the horizon then comes out. A
/// limit of zero admits none.
pub proof fn lemma_admitted_policies(policy: RequestPolicyView, dedup_ttl_ms_max: nat)
    ensures
        policy.valid() <==> policy.unit_ms >= 1 && policy.replay_count <= 65_535
            && policy.replay_gap.valid() && policy.horizon() < 0x1_0000_0000,
        policy.valid() && 0 < dedup_ttl_ms_max && policy.horizon() <= dedup_ttl_ms_max ==> (
        checked_horizon(policy, dedup_ttl_ms_max) matches Ok(ms) && ms == policy.horizon()),
        policy.valid() && 0 < dedup_ttl_ms_max < policy.horizon() ==> (checked_horizon(
            policy,
            dedup_ttl_ms_max,
        ) matches Err(e) && e is RequestPolicyExceedsApiKey),
        !policy.valid() || dedup_ttl_ms_max == 0 ==> (checked_horizon(
            policy,
            dedup_ttl_ms_max,
        ) matches Err(e) && e is InvalidRequestPolicy),
{
}

/// The default policy: units of 20 milliseconds, one replay, rounds of one
/// unit, a final phase of one unit, completion delivery. The builder starts
/// from it.
pub proof fn lemma_default_policy()
    ensures
        ({
            let policy = RequestPolicyView::initial();
            &&& policy.unit_ms == 20
            &&& policy.replay_count == 1
            &&& policy.replay_gap == (ScheduleView::Fixed { units: 1 })
            &&& policy.final_receive_units == 1
            &&& policy.completion_delivery
            &&& RequestPolicyBuilderView::initial().policy() == policy
            &&& RequestPolicyBuilderView::initial().unit_valid()
        }),
{
}

/// The policy of a builder's settings has the settings, and its unit is the
/// unit that was set, in milliseconds: only a positive whole number of them
/// that fits in 64 bits is accepted.
pub proof fn lemma_policy_of_settings(settings: RequestPolicyBuilderView)
    ensures
        ({
            let policy = settings.policy();
            &&& settings.unit_valid() <==> settings.unit_nanos == policy.unit_ms * 1_000_000 && 1
                <= policy.unit_ms <= u64::MAX
            &&& forall|ms: nat|
                1 <= ms <= u64::MAX && settings.unit_nanos == #[trigger] (ms * 1_000_000)
                    ==> settings.unit_valid() && policy.unit_ms == ms
            &&& policy.replay_count == settings.replay_count
            &&& policy.replay_gap == settings.replay_gap
            &&& policy.final_receive_units == settings.final_receive_units
            &&& policy.completion_delivery == settings.completion_delivery
        }),
{
}

impl Default for RequestPolicy {
    fn default() -> (policy: Self)
        ensures
            policy@ == RequestPolicyView::initial(),
    {
        proof {
            lemma_default_horizon();
        }
        let replay_gap: Schedule = Schedule::fixed(1);
        RequestPolicy {
            unit_ms: 20,
            replay_count: 1,
            replay_gap,
            final_receive_units: 1,
            completion_delivery: true,
        }
    }
}

/// Builder for [`RequestPolicy`].
#[derive(Debug, Clone, Copy)]
pub struct RequestPolicyBuilder {
    unit: Duration,
    replay_count: u32,
    replay_gap: Schedule,
    final_receive_units: u32,
    completion_delivery: bool,
}

/// What a [`RequestPolicyBuilder`] holds.
pub ghost struct RequestPolicyBuilderView {
    /// The base duration, in nanoseconds.
    pub unit_nanos: nat,
    /// The replays after the initial send.
    pub replay_count: nat,
    /// The durations of the rounds.
    pub replay_gap: ScheduleView,
    /// The length of the receive-only phase, in units.
    pub final_receive_units: nat,
    /// Whether missing servers get the request before a decision is returned.
    pub completion_delivery: bool,
}

impl View for RequestPolicyBuilder {
    type V = RequestPolicyBuilderView;

    closed spec fn view(&self) -> RequestPolicyBuilderView {
        RequestPolicyBuilderView {
            unit_nanos: duration::duration_nanos(self.unit),
            replay_count: self.replay_count as nat,
            replay_gap: self.replay_gap@,
            final_receive_units: self.final_receive_units as nat,
            completion_delivery: self.completion_delivery,
        }
    }
}

impl RequestPolicyBuilderView {
    /// The settings of the default policy.
    pub open spec fn initial() -> RequestPolicyBuilderView {
        RequestPolicyBuilderView {
            unit_nanos: 20_000_000,
            replay_count: 1,
            replay_gap: ScheduleView::Fixed { units: 1 },
            final_receive_units: 1,
            completion_delivery: true,
        }
    }

    /// The policy that the settings describe.
    pub open spec fn policy(self) -> RequestPolicyView {
        RequestPolicyView {
            unit_ms: self.unit_nanos / 1_000_000,
            replay_count: self.replay_count,
            replay_gap: self.replay_gap,
            final_receive_units: self.final_receive_units,
            completion_delivery: self.completion_delivery,
        }
    }

    /// Whether the unit is a positive whole number of milliseconds.
    pub open spec fn unit_valid(self) -> bool {
        self.unit_nanos > 0 && self.unit_nanos % 1_000_000 == 0 && self.unit_nanos / 1_000_000
            <= u64::MAX
    }
}

impl Default for RequestPolicyBuilder {
    fn default() -> (builder: Self)
        ensures
            builder@ == RequestPolicyBuilderView::initial(),
    {
        let policy: RequestPolicy = RequestPolicy::default();
        RequestPolicyBuilder {
            unit: Duration::from_millis(policy.unit_ms),
            replay_count: policy.replay_count,
            replay_gap: policy.replay_gap,
            final_receive_units: policy.final_receive_units,
            completion_delivery: policy.completion_delivery,
        }
    }
}

impl RequestPolicyBuilder {
    /// Sets the base duration used by every policy round.
    pub fn unit(self, unit: Duration) -> (builder: Self)
        ensures
            builder@ == (RequestPolicyBuilderView {
                unit_nanos: duration::duration_nanos(unit),
                ..self@
            }),
    {
        RequestPolicyBuilder { unit, ..self }
    }

    /// Sets the number of replays after the initial send.
    pub fn replays(self, replay_count: u32) -> (builder: Self)
        ensures
            builder@ == (RequestPolicyBuilderView { replay_count: replay_count as nat, ..self@ }),
    {
        RequestPolicyBuilder { replay_count, ..self }
    }

    /// Sets the duration schedule for transmission rounds.
    pub fn replay_gap(self, schedule: Schedule) -> (builder: Self)
        ensures
            builder@ == (RequestPolicyBuilderView { replay_gap: schedule@, ..self@ }),
    {
        RequestPolicyBuilder { replay_gap: schedule, ..self }
    }

    /// Sets the length of the final receive-only phase, in policy units.
    pub fn final_receive_units(self, units: u32) -> (builder: Self)
        ensures
            builder@ == (RequestPolicyBuilderView { final_receive_units: units as nat, ..self@ }),
    {
        RequestPolicyBuilder { final_receive_units: units, ..self }
    }

    /// Enables or disables best-effort delivery to missing servers.
    pub fn completion_delivery(self, enabled: bool) -> (builder: Self)
        ensures
            builder@ == (RequestPolicyBuilderView { completion_delivery: enabled, ..self@ }),
    {
        RequestPolicyBuilder { completion_delivery: enabled, ..self }
    }

    /// Validates and builds the request policy.
    ///
    /// # Errors
    ///
    /// Returns [`Error`] when the unit is not a positive whole number of
    /// milliseconds, a schedule is structurally invalid, or the resulting
    /// horizon overflows the wire representation. The API-key-specific horizon
    /// limit is checked later by
    /// [`ClientBuilder::build`](crate::ClientBuilder::build).
    pub fn build(self) -> (policy: Result<RequestPolicy, Error>)
        ensures
            match policy {
                Ok(p) => self@.unit_valid() && p@ == self@.policy() && p@.valid(),
                Err(e) => if !self@.unit_valid() {
                    e == Error::InvalidConfiguration(
                        ConfigurationError::InvalidDuration { field: "request policy unit" },
                    )
                } else {
                    !self@.policy().valid() && e == Error::InvalidConfiguration(
                        ConfigurationError::InvalidRequestPolicy,
                    )
                },
            },
    {
        let unit_ms: u64 = match whole_millis(self.unit) {
            Some(ms) => ms,
            None => return Err(
                Error::InvalidConfiguration(
                    ConfigurationError::InvalidDuration { field: "request policy unit" },
                ),
            ),
        };
        match schedule_horizon_ms(
            unit_ms,
            self.replay_count,
            self.replay_gap,
            self.final_receive_units,
            u32::MAX,
        ) {
            Ok(_) => {},
            Err(e) => return Err(Error::InvalidConfiguration(e)),
        }
        Ok(
            RequestPolicy {
                unit_ms,
                replay_count: self.replay_count,
                replay_gap: self.replay_gap,
                final_receive_units: self.final_receive_units,
                completion_delivery: self.completion_delivery,
            },
        )
    }
}

} // verus!
