//! The choice of a new source port on a server's advice.

use vstd::prelude::*;

use crate::client::{CoreClient, CoreClientView};
use crate::delivery;

verus! {

/// The first port of the dynamic range.
pub const STEERING_PORT_MIN: u16 = 49_152;

/// The number of ports in the dynamic range, which ends at the highest port.
pub const STEERING_PORT_COUNT: u32 = 16_384;

/// The port behind another one: the next of the dynamic range, or its first.
pub open spec fn following_port(port: u16) -> u16 {
    if STEERING_PORT_MIN <= port < u16::MAX {
        (port + 1) as u16
    } else {
        STEERING_PORT_MIN
    }
}

/// The port that comes `n` ports behind another one.
pub open spec fn port_after(port: u16, n: nat) -> u16
    decreases n,
{
    if n == 0 {
        port
    } else {
        following_port(port_after(port, (n - 1) as nat))
    }
}

/// Within the dynamic range, ports follow each other in order and start over
/// at the end.
pub proof fn lemma_port_after(port: u16, n: nat)
    requires
        port >= STEERING_PORT_MIN,
    ensures
        port_after(port, n) == STEERING_PORT_MIN + (port - STEERING_PORT_MIN + n)
            % STEERING_PORT_COUNT as int,
    decreases n,
{
    if n > 0 {
        lemma_port_after(port, (n - 1) as nat);
    }
}

/// No port is tried again before every port of the range was tried.
pub proof fn lemma_ports_do_not_repeat(port: u16, i: nat, j: nat)
    requires
        port >= STEERING_PORT_MIN,
        i < j < i + STEERING_PORT_COUNT,
    ensures
        port_after(port, i) != port_after(port, j),
{
    lemma_port_after(port, i);
    lemma_port_after(port, j);
}

/// As many steps as the range has ports come to every one of them.
pub proof fn lemma_ports_cover_the_range(port: u16, wanted: u16)
    requires
        port >= STEERING_PORT_MIN,
        wanted >= STEERING_PORT_MIN,
    ensures
        exists|n: nat| n < STEERING_PORT_COUNT && #[trigger] port_after(port, n) == wanted,
{
    let n: nat = if wanted >= port {
        (wanted - port) as nat
    } else {
        (wanted - port + STEERING_PORT_COUNT) as nat
    };
    lemma_port_after(port, n);
    assert(port_after(port, n) == wanted);
}

/// Where the search for a port begins: where the last one ended, or behind the
/// current port if there was none.
pub open spec fn first_candidate(next_port: u16, current_port: u16) -> u16 {
    if next_port == 0 {
        following_port(current_port)
    } else {
        next_port
    }
}

/// Steps along the ports add up.
proof fn lemma_steps_add_up(port: u16, i: nat, j: nat)
    ensures
        port_after(port_after(port, i), j) == port_after(port, i + j),
    decreases j,
{
    if j > 0 {
        lemma_steps_add_up(port, i, (j - 1) as nat);
    }
}

/// A search goes on where the one before ended: after a search that began at
/// `first` and bound its candidate behind `tried` occupied ports, the ports
/// that the next search tries are those that the first would have tried next.
pub proof fn lemma_searches_continue(first: u16, tried: nat, current_port: u16, n: nat)
    ensures
        port_after(
            first_candidate(following_port(port_after(first, tried)), current_port),
            n,
        ) == port_after(first, tried + 1 + n),
{
    lemma_steps_add_up(first, tried + 1, n);
}

/// A search for a port that can be bound.
pub struct PortSearch {
    first: Ghost<u16>,
    candidate: u16,
    tried: u32,
}

/// How far a [`PortSearch`] is.
pub ghost struct PortSearchView {
    /// The port that it began with.
    pub first: u16,
    /// How many ports were found occupied.
    pub tried: nat,
}

impl View for PortSearch {
    type V = PortSearchView;

    closed spec fn view(&self) -> PortSearchView {
        PortSearchView { first: self.first@, tried: self.tried as nat }
    }
}

impl PortSearchView {
    /// The port to try.
    pub open spec fn candidate(self) -> u16 {
        port_after(self.first, self.tried)
    }
}

impl PortSearch {
    #[verifier::type_invariant]
    spec fn in_step(self) -> bool {
        &&& self.candidate == port_after(self.first@, self.tried as nat)
        &&& self.tried <= STEERING_PORT_COUNT
    }

    /// Begins a search.
    pub fn begin(next_port: u16, current_port: u16) -> (search: Self)
        ensures
            search@ == (PortSearchView {
                first: first_candidate(next_port, current_port),
                tried: 0,
            }),
    {
        let candidate: u16 = if next_port == 0 {
            CoreClient::next_steering_port(current_port)
        } else {
            next_port
        };
        PortSearch { first: Ghost(candidate), candidate, tried: 0 }
    }

    /// The port to try, unless as many as the range has were tried.
    pub fn candidate(&self) -> (port: Option<u16>)
        ensures
            port == (if self@.tried < STEERING_PORT_COUNT {
                Some(self@.candidate())
            } else {
                None
            }),
    {
        proof {
            use_type_invariant(self);
        }
        if self.tried < STEERING_PORT_COUNT {
            Some(self.candidate)
        } else {
            None
        }
    }

    /// Goes on behind a port that is occupied.
    pub fn occupied(self) -> (search: Self)
        requires
            self@.tried < STEERING_PORT_COUNT,
        ensures
            search@ == (PortSearchView { first: self@.first, tried: self@.tried + 1 }),
    {
        proof {
            use_type_invariant(&self);
        }
        PortSearch {
            first: self.first,
            candidate: CoreClient::next_steering_port(self.candidate),
            tried: self.tried + 1,
        }
    }

    /// Where the next search begins, now that the candidate was bound.
    pub fn following(&self) -> (port: u16)
        ensures
            port == following_port(self@.candidate()),
    {
        proof {
            use_type_invariant(self);
        }
        CoreClient::next_steering_port(self.candidate)
    }
}

/// What became of a client's source port.
#[derive(Debug, Clone, Copy, PartialEq, Eq, Structural)]
pub struct SteeringStats {
    /// How often a server advised against the port.
    pub feedback_zero_count: u64,
    /// How often the port changed.
    pub port_changes: u64,
    /// The port after the last change.
    pub last_port: Option<u16>,
    /// Where the next search begins; zero before the first one.
    pub next_port: u16,
}

impl SteeringStats {
    /// Nothing has happened yet.
    pub fn new() -> (stats: Self)
        ensures
            stats == (SteeringStats {
                feedback_zero_count: 0,
                port_changes: 0,
                last_port: None,
                next_port: 0,
            }),
    {
        SteeringStats { feedback_zero_count: 0, port_changes: 0, last_port: None, next_port: 0 }
    }

    /// Counts advice against the port.
    pub fn advised(&mut self)
        ensures
            *final(self) == (SteeringStats {
                feedback_zero_count: delivery::counted(old(self).feedback_zero_count),
                ..*old(self)
            }),
    {
        self.feedback_zero_count = self.feedback_zero_count.wrapping_add(1);
    }

    /// Takes down that the search ended and the next one begins at
    /// `next_port`.
    pub fn rebound(&mut self, next_port: u16)
        ensures
            *final(self) == (SteeringStats { next_port, ..*old(self) }),
    {
        self.next_port = next_port;
    }

    /// Takes the new port down; returns whether it is another one than before.
    pub fn settled(&mut self, actual_port: u16) -> (changed: bool)
        ensures
            changed == (old(self).last_port != Some(actual_port)),
            *final(self) == (SteeringStats {
                port_changes: if changed {
                    delivery::counted(old(self).port_changes)
                } else {
                    old(self).port_changes
                },
                last_port: Some(actual_port),
                ..*old(self)
            }),
    {
        let changed: bool = match self.last_port {
            Some(port) => port != actual_port,
            None => true,
        };
        if changed {
            self.port_changes = self.port_changes.wrapping_add(1);
        }
        self.last_port = Some(actual_port);
        changed
    }
}

/// What to do next about a change of the source port.
#[derive(Debug, Clone, Copy, PartialEq, Eq, Structural)]
pub enum SteeringStep {
    /// Bind a socket to this port.
    Bind { port: u16 },
    /// Put the new socket in place of the old one and announce this epoch.
    Install { epoch: u64 },
    /// Wait until the receiver says that it has come to this epoch.
    AwaitReceiver { epoch: u64 },
    /// The change is complete; `changed` tells whether the port is another one
    /// than after the last change.
    Settled { changed: bool },
    /// Every port of the range is occupied.
    Exhausted,
    /// Nothing: the event does not belong here.
    Ignore,
}

/// Where a change of the source port stands.
#[derive(Debug, Clone, Copy, PartialEq, Eq, Structural)]
pub enum SteeringStage {
    /// A port is being looked for.
    Searching,
    /// A socket was bound and is to be installed.
    Installing,
    /// The receiver has to come to the new socket.
    Awaiting { actual_port: u16 },
    /// The change is complete, or no port was found.
    Over,
}

/// A change of the source port, from the advice to the receiver's confirmation
/// that it listens on the new socket.
pub struct SteeringRun {
    stats: SteeringStats,
    search: PortSearch,
    epoch: u64,
    stage: SteeringStage,
}

/// What a [`SteeringRun`] knows.
pub ghost struct SteeringRunView {
    /// What became of the port so far.
    pub stats: SteeringStats,
    /// How far the search is.
    pub search: PortSearchView,
    /// The epoch of the new socket.
    pub epoch: u64,
    /// Where the change stands.
    pub stage: SteeringStage,
}

impl View for SteeringRun {
    type V = SteeringRunView;

    closed spec fn view(&self) -> SteeringRunView {
        SteeringRunView {
            stats: self.stats,
            search: self.search@,
            epoch: self.epoch,
            stage: self.stage,
        }
    }
}

impl SteeringRunView {
    /// A change that begins: a port is looked for.
    pub open spec fn begun(
        stats: SteeringStats,
        current_port: u16,
        current_epoch: u64,
    ) -> SteeringRunView {
        SteeringRunView {
            stats,
            search: PortSearchView {
                first: first_candidate(stats.next_port, current_port),
                tried: 0,
            },
            epoch: delivery::counted(current_epoch),
            stage: SteeringStage::Searching,
        }
    }

    /// After the candidate turned out to be occupied.
    pub open spec fn after_occupied(self) -> (SteeringRunView, SteeringStep) {
        if self.stage != SteeringStage::Searching {
            (self, SteeringStep::Ignore)
        } else {
            let search = PortSearchView { first: self.search.first, tried: self.search.tried + 1 };
            if search.tried < STEERING_PORT_COUNT {
                (
                    SteeringRunView { search, ..self },
                    SteeringStep::Bind { port: search.candidate() },
                )
            } else {
                (
                    SteeringRunView { search, stage: SteeringStage::Over, ..self },
                    SteeringStep::Exhausted,
                )
            }
        }
    }

    /// After the candidate was bound: the next search begins behind it.
    pub open spec fn after_bound(self) -> (SteeringRunView, SteeringStep) {
        if self.stage != SteeringStage::Searching {
            (self, SteeringStep::Ignore)
        } else {
            (
                SteeringRunView {
                    stats: SteeringStats {
                        next_port: following_port(self.search.candidate()),
                        ..self.stats
                    },
                    stage: SteeringStage::Installing,
                    ..self
                },
                SteeringStep::Install { epoch: self.epoch },
            )
        }
    }

    /// After the new socket was installed.
    pub open spec fn after_installed(self, actual_port: u16) -> (SteeringRunView, SteeringStep) {
        if self.stage != SteeringStage::Installing {
            (self, SteeringStep::Ignore)
        } else {
            (
                SteeringRunView { stage: SteeringStage::Awaiting { actual_port }, ..self },
                SteeringStep::AwaitReceiver { epoch: self.epoch },
            )
        }
    }

    /// After the receiver said which epoch it has come to.
    pub open spec fn after_receiver(self, ready_epoch: u64) -> (SteeringRunView, SteeringStep) {
        match self.stage {
            SteeringStage::Awaiting { actual_port } => if ready_epoch != self.epoch {
                (self, SteeringStep::AwaitReceiver { epoch: self.epoch })
            } else {
                let changed = self.stats.last_port != Some(actual_port);
                (
                    SteeringRunView {
                        stats: SteeringStats {
                            port_changes: if changed {
                                delivery::counted(self.stats.port_changes)
                            } else {
                                self.stats.port_changes
                            },
                            last_port: Some(actual_port),
                            ..self.stats
                        },
                        stage: SteeringStage::Over,
                        ..self
                    },
                    SteeringStep::Settled { changed },
                )
            },
            _ => (self, SteeringStep::Ignore),
        }
    }
}

impl SteeringRun {
    #[verifier::type_invariant]
    spec fn in_range(self) -> bool {
        self.stage == SteeringStage::Searching ==> self.search@.tried < STEERING_PORT_COUNT
    }

    /// Begins a change, once advice was taken up and counted and the requests
    /// that use the current socket have drained.
    pub fn begin(stats: SteeringStats, current_port: u16, current_epoch: u64) -> (begun: (
        SteeringRun,
        SteeringStep,
    ))
        ensures
            begun.0@ == SteeringRunView::begun(stats, current_port, current_epoch),
            begun.1 == (SteeringStep::Bind { port: first_candidate(stats.next_port, current_port) }),
    {
        let search: PortSearch = PortSearch::begin(stats.next_port, current_port);
        let port: u16 = match search.candidate() {
            Some(candidate) => candidate,
            None => STEERING_PORT_MIN,
        };
        let run: SteeringRun = SteeringRun {
            stats,
            search,
            epoch: current_epoch.wrapping_add(1),
            stage: SteeringStage::Searching,
        };
        (run, SteeringStep::Bind { port })
    }

    /// Takes in that the candidate is occupied.
    pub fn on_occupied(self) -> (next: (SteeringRun, SteeringStep))
        ensures
            (next.0@, next.1) == self@.after_occupied(),
    {
        proof {
            use_type_invariant(&self);
        }
        match self.stage {
            SteeringStage::Searching => {
                let search: PortSearch = self.search.occupied();
                match search.candidate() {
                    Some(port) => {
                        let run: SteeringRun = SteeringRun {
                            stats: self.stats,
                            search,
                            epoch: self.epoch,
                            stage: SteeringStage::Searching,
                        };
                        (run, SteeringStep::Bind { port })
                    },
                    None => {
                        let run: SteeringRun = SteeringRun {
                            stats: self.stats,
                            search,
                            epoch: self.epoch,
                            stage: SteeringStage::Over,
                        };
                        (run, SteeringStep::Exhausted)
                    },
                }
            },
            _ => (self, SteeringStep::Ignore),
        }
    }

    /// Takes in that the candidate was bound.
    pub fn on_bound(self) -> (next: (SteeringRun, SteeringStep))
        ensures
            (next.0@, next.1) == self@.after_bound(),
    {
        match self.stage {
            SteeringStage::Searching => {
                let mut stats: SteeringStats = self.stats;
                stats.rebound(self.search.following());
                let run: SteeringRun = SteeringRun {
                    stats,
                    search: self.search,
                    epoch: self.epoch,
                    stage: SteeringStage::Installing,
                };
                (run, SteeringStep::Install { epoch: self.epoch })
            },
            _ => (self, SteeringStep::Ignore),
        }
    }

    /// Takes in that the new socket was installed, and the port that it has.
    pub fn on_installed(self, actual_port: u16) -> (next: (SteeringRun, SteeringStep))
        ensures
            (next.0@, next.1) == self@.after_installed(actual_port),
    {
        match self.stage {
            SteeringStage::Installing => {
                let run: SteeringRun = SteeringRun {
                    stats: self.stats,
                    search: self.search,
                    epoch: self.epoch,
                    stage: SteeringStage::Awaiting { actual_port },
                };
                (run, SteeringStep::AwaitReceiver { epoch: self.epoch })
            },
            _ => (self, SteeringStep::Ignore),
        }
    }

    /// Takes in which epoch the receiver has come to.
    pub fn on_receiver(self, ready_epoch: u64) -> (next: (SteeringRun, SteeringStep))
        ensures
            (next.0@, next.1) == self@.after_receiver(ready_epoch),
    {
        match self.stage {
            SteeringStage::Awaiting { actual_port } => {
                if ready_epoch != self.epoch {
                    let epoch: u64 = self.epoch;
                    return (self, SteeringStep::AwaitReceiver { epoch });
                }
                let mut stats: SteeringStats = self.stats;
                let changed: bool = stats.settled(actual_port);
                let run: SteeringRun = SteeringRun {
                    stats,
                    search: self.search,
                    epoch: self.epoch,
                    stage: SteeringStage::Over,
                };
                (run, SteeringStep::Settled { changed })
            },
            _ => (self, SteeringStep::Ignore),
        }
    }

    /// What became of the port so far.
    pub fn stats(&self) -> (stats: SteeringStats)
        ensures
            stats == self@.stats,
    {
        self.stats
    }
}

impl SteeringStats {
    /// Whether the next search begins in the dynamic range, wherever the
    /// socket is then.
    pub open spec fn in_dynamic_range(self) -> bool {
        self.next_port == 0 || self.next_port >= STEERING_PORT_MIN
    }

    /// Whether the next search begins behind the port that the socket has.
    pub open spec fn continues_behind(self, current_port: u16) -> bool {
        self.next_port == 0 || self.next_port == following_port(current_port)
    }
}

impl SteeringRunView {
    /// Whether the ports of the search are ports of the dynamic range.
    pub open spec fn in_dynamic_range(self) -> bool {
        self.stats.in_dynamic_range() && self.search.first >= STEERING_PORT_MIN
    }

    /// Whether the search began behind the port that the socket has.
    pub open spec fn began_behind(self, current_port: u16) -> bool {
        self.search.first == following_port(current_port)
    }
}

/// Every port that a change of the source port binds is in the dynamic range,
/// if the search began there, and so does the search of the next change.
pub proof fn lemma_binds_in_dynamic_range(
    stats: SteeringStats,
    current_port: u16,
    current_epoch: u64,
    run: SteeringRunView,
    actual_port: u16,
    ready_epoch: u64,
)
    requires
        stats.in_dynamic_range(),
        run.in_dynamic_range(),
    ensures
        first_candidate(stats.next_port, current_port) >= STEERING_PORT_MIN,
        SteeringRunView::begun(stats, current_port, current_epoch).in_dynamic_range(),
        run.after_occupied().1 matches SteeringStep::Bind { port } ==> port >= STEERING_PORT_MIN,
        run.after_occupied().0.in_dynamic_range(),
        run.after_bound().0.in_dynamic_range(),
        run.after_installed(actual_port).0.in_dynamic_range(),
        run.after_receiver(ready_epoch).0.in_dynamic_range(),
{
    lemma_port_after(run.search.first, run.search.tried + 1);
    lemma_port_after(run.search.first, run.search.tried);
}

/// A search that begins behind the current port comes to another port each
/// time, until it has come round the whole range.
proof fn lemma_round_trip(current_port: u16, tried: nat)
    requires
        tried < STEERING_PORT_COUNT,
    ensures
        port_after(following_port(current_port), tried) == current_port ==> tried
            == STEERING_PORT_COUNT - 1,
{
    lemma_port_after(following_port(current_port), tried);
    if current_port >= STEERING_PORT_MIN {
        lemma_steps_add_up(current_port, 1, tried);
        assert(port_after(current_port, 1) == following_port(port_after(current_port, 0)));
        lemma_port_after(current_port, tried + 1);
    }
}

/// A change of the source port binds another port than the current one: only
/// when every other port of the range was found occupied does the search come
/// to it again. A search begins behind the current port as long as the socket
/// is where the last change left it, for the next one then begins behind the
/// port that was bound.
pub proof fn lemma_binds_another_port(
    stats: SteeringStats,
    current_port: u16,
    current_epoch: u64,
    run: SteeringRunView,
)
    requires
        stats.continues_behind(current_port),
        run.began_behind(current_port),
    ensures
        SteeringRunView::begun(stats, current_port, current_epoch).began_behind(current_port),
        first_candidate(stats.next_port, current_port) != current_port,
        run.after_occupied().0.began_behind(current_port),
        run.after_occupied().1 matches SteeringStep::Bind { port } ==> port != current_port
            || run.search.tried + 2 == STEERING_PORT_COUNT,
        run.after_bound().1 is Install ==> run.after_bound().0.stats.continues_behind(
            run.search.candidate(),
        ),
{
    lemma_round_trip(current_port, 0);
    if run.search.tried + 1 < STEERING_PORT_COUNT {
        lemma_round_trip(current_port, run.search.tried + 1);
    }
}

/// A change only settles once the receiver has come to the new socket.
pub proof fn lemma_settles_with_the_receiver(run: SteeringRunView, ready_epoch: u64)
    ensures
        run.after_receiver(ready_epoch).1 is Settled ==> ready_epoch == run.epoch,
        run.after_occupied().1 !is Settled,
        run.after_bound().1 !is Settled,
        forall|port: u16| run.after_installed(port).1 !is Settled,
{
}

/// Which port follows another one: the next higher one within the dynamic
/// range, which goes from 49152 to 65535, and 49152 behind its last port and
/// behind any port outside of it.
pub proof fn lemma_which_port_follows(port: u16)
    ensures
        49_152 <= port < 65_535 ==> following_port(port) == port + 1,
        port < 49_152 || port == 65_535 ==> following_port(port) == 49_152,
{
}

/// Where a search begins: where the search before it left off, or behind the
/// current port if there was none.
pub proof fn lemma_where_a_search_begins(next_port: u16, current_port: u16)
    ensures
        next_port != 0 ==> first_candidate(next_port, current_port) == next_port,
        next_port == 0 ==> first_candidate(next_port, current_port) == following_port(
            current_port,
        ),
{
}

/// Where a change of the source port stands after that many occupied ports.
pub open spec fn after_occupied_ports(run: SteeringRunView, n: nat) -> SteeringRunView
    decreases n,
{
    if n == 0 {
        run
    } else {
        after_occupied_ports(run, (n - 1) as nat).after_occupied().0
    }
}

/// While ports are occupied, only the search moves.
proof fn lemma_occupied_ports(run: SteeringRunView, n: nat)
    requires
        run.stage == SteeringStage::Searching,
        run.search.tried == 0,
        n < 16_384,
    ensures
        after_occupied_ports(run, n) == (SteeringRunView {
            search: PortSearchView { first: run.search.first, tried: n },
            ..run
        }),
    decreases n,
{
    if n > 0 {
        lemma_occupied_ports(run, (n - 1) as nat);
    }
}

/// A change of the source port tries one port after the other, in order and
/// round the dynamic range, from the one that it began with. It gives up when
/// all 16384 were found occupied, and not before.
pub proof fn lemma_ports_are_tried_in_order(
    stats: SteeringStats,
    current_port: u16,
    current_epoch: u64,
    n: nat,
)
    requires
        1 <= n <= 16_384,
        first_candidate(stats.next_port, current_port) >= 49_152,
    ensures
        ({
            let begun = SteeringRunView::begun(stats, current_port, current_epoch);
            let first = first_candidate(stats.next_port, current_port);
            let (run, step) = after_occupied_ports(begun, (n - 1) as nat).after_occupied();
            &&& n < 16_384 ==> (step matches SteeringStep::Bind { port } && port == 49_152 + (first
                - 49_152 + n) % 16_384)
            &&& n == 16_384 ==> step is Exhausted && run.stage is Over
            &&& run.stats == stats
        }),
{
    let begun = SteeringRunView::begun(stats, current_port, current_epoch);
    lemma_occupied_ports(begun, (n - 1) as nat);
    lemma_port_after(begun.search.first, n);
}

/// How a change of the source port goes on once a port was bound: the new
/// socket is installed under the next epoch; the receiver is waited for until
/// it has come to that epoch; then the change is complete, and counts as a
/// change if the port is another one than after the change before. The search
/// of the next change begins behind the port that was bound.
pub proof fn lemma_a_change_from_bind_to_receiver(
    stats: SteeringStats,
    current_port: u16,
    current_epoch: u64,
    occupied: nat,
    actual_port: u16,
    ready_epoch: u64,
)
    requires
        occupied < 16_384,
    ensures
        ({
            let begun = SteeringRunView::begun(stats, current_port, current_epoch);
            let first = first_candidate(stats.next_port, current_port);
            let (bound, install) = after_occupied_ports(begun, occupied).after_bound();
            let (installed, wait) = bound.after_installed(actual_port);
            let (over, end) = installed.after_receiver(ready_epoch);
            let epoch: u64 = if current_epoch == u64::MAX {
                0
            } else {
                (current_epoch + 1) as u64
            };
            let changed = stats.last_port != Some(actual_port);
            &&& install == SteeringStep::Install { epoch }
            &&& wait == SteeringStep::AwaitReceiver { epoch }
            &&& ready_epoch != epoch ==> end == wait && over == installed
            &&& ready_epoch == epoch ==> {
                &&& end == SteeringStep::Settled { changed }
                &&& over.stage is Over
                &&& over.stats.last_port == Some(actual_port)
                &&& over.stats.next_port == following_port(port_after(first, occupied))
                &&& over.stats.feedback_zero_count == stats.feedback_zero_count
                &&& !changed ==> over.stats.port_changes == stats.port_changes
                &&& changed && stats.port_changes < u64::MAX ==> over.stats.port_changes
                    == stats.port_changes + 1
                &&& changed && stats.port_changes == u64::MAX ==> over.stats.port_changes == 0
            }
        }),
{
    lemma_occupied_ports(
        SteeringRunView::begun(stats, current_port, current_epoch),
        occupied,
    );
}

/// What does not belong to where a change stands is ignored and changes
/// nothing.
pub proof fn lemma_misplaced_events_are_ignored(
    run: SteeringRunView,
    actual_port: u16,
    ready_epoch: u64,
)
    ensures
        run.stage !is Searching ==> run.after_occupied() == (run, SteeringStep::Ignore)
            && run.after_bound() == (run, SteeringStep::Ignore),
        run.stage !is Installing ==> run.after_installed(actual_port) == (
            run,
            SteeringStep::Ignore,
        ),
        run.stage !is Awaiting ==> run.after_receiver(ready_epoch) == (run, SteeringStep::Ignore),
{
}

/// Counters count by one and start over behind the largest number.
pub proof fn lemma_counters_count(counter: u64)
    ensures
        counter < u64::MAX ==> delivery::counted(counter) == counter + 1,
        delivery::counted(u64::MAX) == 0,
{
}

/// Advice against the source port that still has to be acted on. Requests
/// under way at the same time may all bring it; one change answers them all.
#[derive(Debug, Clone, Copy, PartialEq, Eq, Structural)]
pub struct PendingAdvice {
    /// Whether there is any.
    pub pending: bool,
}

impl PendingAdvice {
    /// None.
    pub fn new() -> (advice: Self)
        ensures
            !advice.pending,
    {
        PendingAdvice { pending: false }
    }

    /// Takes advice down.
    pub fn advise(&mut self)
        ensures
            final(self).pending,
    {
        self.pending = true;
    }

    /// Takes the advice up, if there is any: the caller then changes the port.
    pub fn take(&mut self) -> (taken: bool)
        ensures
            taken == old(self).pending,
            !final(self).pending,
    {
        let taken: bool = self.pending;
        self.pending = false;
        taken
    }
}

/// Whether a response makes the client change its source port: it asked for
/// advice, does not ignore it, and was advised against the port.
pub open spec fn steering_wanted(setup: CoreClientView, feedback: bool) -> bool {
    setup.steering_feedback && !feedback && !setup.ignore_steering_feedback
}

/// The source port is changed exactly if the client asked for advice, does not
/// ignore it, and the response advises against the port.
pub proof fn lemma_when_the_port_is_changed(setup: CoreClientView)
    ensures
        !steering_wanted(setup, true),
        steering_wanted(setup, false) <==> setup.steering_feedback
            && !setup.ignore_steering_feedback,
{
}

impl CoreClient {
    /// The port behind another one.
    pub fn next_steering_port(port: u16) -> (next: u16)
        ensures
            next == following_port(port),
    {
        if port < STEERING_PORT_MIN || port == u16::MAX {
            STEERING_PORT_MIN
        } else {
            port + 1
        }
    }

    /// Whether a response makes the client change its source port.
    pub fn wants_steering(&self, feedback: bool) -> (wanted: bool)
        ensures
            wanted == steering_wanted(self@, feedback),
    {
        self.steering_feedback() && !feedback && !self.ignores_steering_feedback()
    }
}

} // verus!
