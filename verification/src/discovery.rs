//! The servers of a service: their names, addresses and identifiers.

use std::collections::HashSet;

use vstd::prelude::*;
use vstd::slice::slice_subrange;
use vstd::utf8;

use crate::client::CoreClient;
use crate::config::PeerAddr;
use crate::error::{CoreError, CoreErrorView};
use crate::selection;
use crate::text;

verus! {

broadcast use vstd::std_specs::hash::group_hash_axioms;

/// One address of a server.
#[derive(Debug, Clone, Copy, PartialEq, Eq, Structural)]
pub struct ServerEndpoint {
    /// Where to send.
    pub addr: PeerAddr,
    /// The server behind the address, where it is known.
    pub server_id: Option<u64>,
}

/// The identifier that a service record's target names: its first label is
/// `s-` and a decimal number without leading zeros. Case and what follows the
/// first label, a final dot among it, do not matter.
pub open spec fn target_server_id(target: Seq<char>) -> Option<u64> {
    let label = text::lower_bytes(text::first_label(utf8::encode_utf8(target)));
    let digits = label.skip(2);
    if label.len() < 3 || label[0] != 115 || label[1] != 45 {
        None
    } else if digits.len() > 1 && digits[0] == 48 {
        None
    } else if !text::all_digits(digits) || text::decimal_value(digits) > u64::MAX {
        None
    } else {
        Some(text::decimal_value(digits) as u64)
    }
}

/// A target that names a server by its identifier is read as that identifier,
/// whatever domain the name is under.
pub proof fn lemma_target_names_server(server_id: u64, domain: Seq<char>)
    ensures
        target_server_id("s-"@ + text::decimal_text(server_id as nat) + "."@ + domain) == Some(
            server_id,
        ),
        target_server_id("s-"@ + text::decimal_text(server_id as nat)) == Some(server_id),
{
    reveal_strlit("s-");
    reveal_strlit(".");
    let number = text::decimal_text(server_id as nat);
    let name = "s-"@ + number;
    let digits = text::ascii_bytes(number);
    text::lemma_decimal_round_trip(server_id as nat);
    assert forall|i: int| 0 <= i < name.len() implies '\0' <= #[trigger] name[i] <= '\u{7f}' by {
        if i >= 2 {
            text::lemma_decimal_digits(server_id as nat);
            assert(name[i] == number[i - 2]);
        }
    }
    assert(utf8::is_ascii_chars(name));
    utf8::is_ascii_chars_encode_utf8(name);
    let label = utf8::encode_utf8(name);
    assert forall|i: int| 0 <= i < label.len() implies #[trigger] label[i] != 46 && text::lower_byte(
        label[i],
    ) == label[i] by {
        if i >= 2 {
            assert(label[i] == digits[i - 2]);
        }
    }
    assert(text::lower_bytes(label) =~= label);
    assert(label.skip(2) =~= digits);
    let long = name + "."@ + domain;
    let dot = "."@;
    assert(utf8::is_ascii_chars(dot));
    utf8::is_ascii_chars_encode_utf8(dot);
    text::lemma_utf8_concat(name + dot, domain);
    text::lemma_utf8_concat(name, dot);
    let bytes = utf8::encode_utf8(long);
    assert(bytes[label.len() as int] == 46);
    assert forall|i: int| 0 <= i < label.len() implies #[trigger] bytes[i] != 46 by {
        assert(bytes[i] == label[i]);
    }
    text::lemma_first_label(bytes, label.len() as int);
    assert(bytes.take(label.len() as int) =~= label);
    text::lemma_first_label(label, label.len() as int);
    assert(label.take(label.len() as int) =~= label);
    if digits.len() > 1 {
        assert(digits[0] == number[0] as u8);
        text::lemma_decimal_digits(server_id as nat);
        assert(number[0] != '0');
    }
}

/// A target names a server exactly if its first label is, in lower case, `s-`
/// and the identifier in decimal: no sign, no leading zero, nothing that 64
/// bits cannot hold, and nothing behind it in the label.
pub proof fn lemma_which_targets_name_a_server(target: Seq<char>, server_id: u64)
    ensures
        target_server_id(target) == Some(server_id) <==> text::lower_bytes(
            text::first_label(utf8::encode_utf8(target)),
        ) == seq![115u8, 45u8] + text::ascii_bytes(text::decimal_text(server_id as nat)),
{
    let label = text::lower_bytes(text::first_label(utf8::encode_utf8(target)));
    let digits = label.skip(2);
    let written = text::ascii_bytes(text::decimal_text(server_id as nat));
    text::lemma_decimal_round_trip(server_id as nat);
    if target_server_id(target) == Some(server_id) {
        text::lemma_decimal_is_unique(digits);
        assert(label =~= seq![115u8, 45u8] + digits);
    }
    if label == seq![115u8, 45u8] + written {
        assert(digits =~= written);
        if digits.len() > 1 {
            assert(digits[0] == text::decimal_text(server_id as nat)[0] as u8);
            text::lemma_decimal_digits(server_id as nat);
        }
    }
}

/// The endpoints of one service record: each address, with the identifier that
/// the target names; none if it names none.
pub open spec fn record_endpoints(target: Seq<char>, addrs: Seq<PeerAddr>) -> Seq<ServerEndpoint> {
    match target_server_id(target) {
        Some(id) => Seq::new(
            addrs.len(),
            |i: int| ServerEndpoint { addr: addrs[i], server_id: Some(id) },
        ),
        None => Seq::empty(),
    }
}

/// The identifiers among endpoints.
pub open spec fn known_ids(endpoints: Seq<ServerEndpoint>) -> Set<u64> {
    Set::new(
        |id: u64|
            exists|i: int|
                0 <= i < endpoints.len() && (#[trigger] endpoints[i]).server_id == Some(id),
    )
}

/// A service record adds every one of its addresses, in order and with the
/// identifier that its target names; a record whose target names no server adds
/// none.
pub proof fn lemma_records_name_their_addresses(target: Seq<char>, addrs: Seq<PeerAddr>, i: int)
    ensures
        match target_server_id(target) {
            Some(id) => {
                &&& record_endpoints(target, addrs).len() == addrs.len()
                &&& 0 <= i < addrs.len() ==> record_endpoints(target, addrs)[i].addr == addrs[i]
                    && record_endpoints(target, addrs)[i].server_id == Some(id)
            },
            None => record_endpoints(target, addrs).len() == 0,
        },
{
}

/// The identifiers of a membership are those that some endpoint has.
pub proof fn lemma_identifiers_of_a_membership(endpoints: Seq<ServerEndpoint>, id: u64)
    ensures
        known_ids(endpoints).contains(id) <==> exists|i: int|
            0 <= i < endpoints.len() && (#[trigger] endpoints[i]).server_id == Some(id),
{
}

/// Whether `oldest` is the oldest of the servers, or nothing where there is
/// none.
pub open spec fn is_oldest(ids: Set<u64>, oldest: Option<u64>) -> bool {
    match oldest {
        Some(id) => ids.contains(id) && forall|other: u64|
            #[trigger] ids.contains(other) ==> !selection::older(other, id),
        None => forall|other: u64| !#[trigger] ids.contains(other),
    }
}

/// The server behind an address: what the last endpoint with that address and
/// an identifier says.
pub open spec fn server_at(endpoints: Seq<ServerEndpoint>, addr: PeerAddr) -> Option<u64>
    decreases endpoints.len(),
{
    if endpoints.len() == 0 {
        None
    } else if endpoints.last().addr == addr && endpoints.last().server_id is Some {
        endpoints.last().server_id
    } else {
        server_at(endpoints.drop_last(), addr)
    }
}

/// The server behind an address is the one that the last endpoint with the
/// address and an identifier names; there is none exactly if no endpoint with
/// the address has an identifier.
pub proof fn lemma_last_record_names_the_server(endpoints: Seq<ServerEndpoint>, addr: PeerAddr)
    ensures
        match server_at(endpoints, addr) {
            Some(id) => exists|i: int|
                0 <= i < endpoints.len() && (#[trigger] endpoints[i]).addr == addr
                    && endpoints[i].server_id == Some(id) && forall|j: int|
                    i < j < endpoints.len() && (#[trigger] endpoints[j]).addr == addr
                        ==> endpoints[j].server_id is None,
            None => forall|i: int|
                0 <= i < endpoints.len() && (#[trigger] endpoints[i]).addr == addr
                    ==> endpoints[i].server_id is None,
        },
    decreases endpoints.len(),
{
    if endpoints.len() > 0 {
        let head = endpoints.drop_last();
        let n = endpoints.len() - 1;
        lemma_last_record_names_the_server(head, addr);
        assert(forall|j: int| 0 <= j < n ==> #[trigger] endpoints[j] == head[j]);
        if endpoints[n].addr == addr && endpoints[n].server_id is Some {
            assert(endpoints[n].server_id == server_at(endpoints, addr));
        } else if let Some(id) = server_at(head, addr) {
            let i = choose|i: int|
                0 <= i < head.len() && (#[trigger] head[i]).addr == addr && head[i].server_id
                    == Some(id) && forall|j: int|
                    i < j < head.len() && (#[trigger] head[j]).addr == addr
                        ==> head[j].server_id is None;
            assert(endpoints[i].addr == addr && endpoints[i].server_id == Some(id));
            assert forall|j: int|
                i < j < endpoints.len() && (#[trigger] endpoints[j]).addr
                    == addr implies endpoints[j].server_id is None by {
                if j < n {
                    assert(endpoints[j] == head[j]);
                }
            }
        }
    }
}

/// The oldest member has the smallest identifier among the members, and there
/// is one unless no member is known by identifier.
pub proof fn lemma_oldest_has_the_smallest_identifier(
    endpoints: Seq<ServerEndpoint>,
    oldest: Option<u64>,
)
    requires
        is_oldest(known_ids(endpoints), oldest),
    ensures
        match oldest {
            Some(id) => {
                &&& exists|i: int|
                    0 <= i < endpoints.len() && (#[trigger] endpoints[i]).server_id == Some(id)
                &&& forall|i: int|
                    0 <= i < endpoints.len() && (#[trigger] endpoints[i]).server_id is Some ==> id
                        <= endpoints[i].server_id->0
            },
            None => forall|i: int|
                0 <= i < endpoints.len() ==> (#[trigger] endpoints[i]).server_id is None,
        },
{
    assert forall|i: int|
        0 <= i < endpoints.len() && (
        #[trigger] endpoints[i]).server_id is Some implies known_ids(endpoints).contains(
        endpoints[i].server_id->0,
    ) by {}
    if let Some(id) = oldest {
        assert(known_ids(endpoints).contains(id));
        assert forall|i: int|
            0 <= i < endpoints.len() && (#[trigger] endpoints[i]).server_id is Some implies id
            <= endpoints[i].server_id->0 by {
            selection::lemma_age_follows_identifiers(endpoints[i].server_id->0, id);
        }
    }
}

/// The membership that one request works with, as it was when the request
/// began.
pub struct ResolvedTargets {
    targets: Vec<ServerEndpoint>,
    allowed_server_ids: HashSet<u64>,
    oldest_server_id: Option<u64>,
}

impl View for ResolvedTargets {
    type V = Seq<ServerEndpoint>;

    closed spec fn view(&self) -> Seq<ServerEndpoint> {
        self.targets@
    }
}

impl ResolvedTargets {
    #[verifier::type_invariant]
    spec fn consistent(self) -> bool {
        &&& self.allowed_server_ids@ == known_ids(self.targets@)
        &&& is_oldest(known_ids(self.targets@), self.oldest_server_id)
    }

    /// The membership that discovered endpoints make up.
    pub fn new(targets: Vec<ServerEndpoint>) -> (resolved: Self)
        ensures
            resolved@ == targets@,
    {
        let mut allowed_server_ids: HashSet<u64> = HashSet::new();
        let mut oldest_server_id: Option<u64> = None;
        let mut i: usize = 0;
        assert(allowed_server_ids@ =~= known_ids(targets@.take(0)));
        while i < targets.len()
            invariant
                i <= targets@.len(),
                allowed_server_ids@ == known_ids(targets@.take(i as int)),
                is_oldest(known_ids(targets@.take(i as int)), oldest_server_id),
            decreases targets@.len() - i,
        {
            let endpoint: ServerEndpoint = targets[i];
            proof {
                lemma_ids_grow(targets@, i as int);
            }
            if let Some(id) = endpoint.server_id {
                allowed_server_ids.insert(id);
                let replaces: bool = match oldest_server_id {
                    Some(current) => selection::is_older_server(id, current),
                    None => true,
                };
                if replaces {
                    oldest_server_id = Some(id);
                }
            }
            i = i + 1;
        }
        assert(targets@.take(i as int) =~= targets@);
        ResolvedTargets { targets, allowed_server_ids, oldest_server_id }
    }

    /// Whether there is nowhere to send to.
    pub fn is_empty(&self) -> (empty: bool)
        ensures
            empty == (self@.len() == 0),
    {
        self.targets.len() == 0
    }

    /// The endpoints.
    pub fn targets(&self) -> (targets: &[ServerEndpoint])
        ensures
            targets@ == self@,
    {
        self.targets.as_slice()
    }

    /// Whether responses of this server count: it is a member, or no member is
    /// known by identifier.
    pub fn allows(&self, server_id: u64) -> (allowed: bool)
        ensures
            allowed == (known_ids(self@).is_empty() || known_ids(self@).contains(server_id)),
    {
        proof {
            use_type_invariant(self);
        }
        self.allowed_server_ids.is_empty() || self.allowed_server_ids.contains(&server_id)
    }

    /// The oldest server.
    pub fn oldest_server_id(&self) -> (oldest: Option<u64>)
        ensures
            is_oldest(known_ids(self@), oldest),
    {
        proof {
            use_type_invariant(self);
        }
        self.oldest_server_id
    }

    /// The server behind an address.
    pub fn server_at(&self, addr: PeerAddr) -> (server_id: Option<u64>)
        ensures
            server_id == server_at(self@, addr),
    {
        let mut end: usize = self.targets.len();
        assert(self@.take(end as int) =~= self@);
        while end > 0
            invariant
                end <= self@.len(),
                self.targets@ == self@,
                server_at(self@, addr) == server_at(self@.take(end as int), addr),
            decreases end,
        {
            let endpoint: ServerEndpoint = self.targets[end - 1];
            assert(self@.take(end as int).drop_last() =~= self@.take(end - 1));
            if endpoint.addr == addr && endpoint.server_id.is_some() {
                return endpoint.server_id;
            }
            end = end - 1;
        }
        None
    }
}

/// One more endpoint adds its identifier.
proof fn lemma_ids_grow(endpoints: Seq<ServerEndpoint>, n: int)
    requires
        0 <= n < endpoints.len(),
    ensures
        known_ids(endpoints.take(n + 1)) == match endpoints[n].server_id {
            Some(id) => known_ids(endpoints.take(n)).insert(id),
            None => known_ids(endpoints.take(n)),
        },
{
    let (a, b) = (endpoints.take(n), endpoints.take(n + 1));
    assert forall|id: u64| #[trigger] known_ids(b).contains(id) == (known_ids(a).contains(id)
        || endpoints[n].server_id == Some(id)) by {
        if known_ids(a).contains(id) {
            let i = choose|i: int| 0 <= i < a.len() && (#[trigger] a[i]).server_id == Some(id);
            assert(b[i].server_id == Some(id));
        }
        if endpoints[n].server_id == Some(id) {
            assert(b[n].server_id == Some(id));
        }
        if known_ids(b).contains(id) {
            let i = choose|i: int| 0 <= i < b.len() && (#[trigger] b[i]).server_id == Some(id);
            if i < n {
                assert(a[i].server_id == Some(id));
            }
        }
    }
    match endpoints[n].server_id {
        Some(id) => {
            assert(known_ids(b) =~= known_ids(a).insert(id));
        },
        None => {
            assert(known_ids(b) =~= known_ids(a));
        },
    }
}

impl CoreClient {
    /// The identifier that a service record's target names.
    pub fn parse_server_id_from_target(target: &str) -> (server_id: Option<u64>)
        ensures
            server_id == target_server_id(target@),
    {
        let bytes: &[u8] = target.as_bytes();
        let end: usize = text::label_end(bytes, 0);
        let first: &[u8] = slice_subrange(bytes, 0, end);
        let lower: Vec<u8> = text::to_lower(first);
        proof {
            text::lemma_first_label(bytes@, end as int);
            assert(first@ =~= bytes@.take(end as int));
        }
        if lower.len() < 3 || lower[0] != 115 || lower[1] != 45 {
            return None;
        }
        let digits: &[u8] = slice_subrange(lower.as_slice(), 2, lower.len());
        assert(digits@ =~= lower@.skip(2));
        if digits.len() > 1 && digits[0] == 48 {
            return None;
        }
        if !text::is_all_digits(digits) {
            return None;
        }
        text::parse_decimal(digits)
    }

    /// The name to look service records up under.
    pub fn srv_query(&self) -> (name: String)
        ensures
            name@ == "_ratelimitly._udp."@ + self@.service_domain,
    {
        let mut name: String = "_ratelimitly._udp.".to_owned();
        name.append(self.service_domain());
        name
    }

    /// Adds the endpoints of one service record to those found so far.
    pub fn add_record(found: &mut Vec<ServerEndpoint>, target: &str, addrs: &[PeerAddr])
        ensures
            final(found)@ == old(found)@ + record_endpoints(target@, addrs@),
    {
        let ghost before = found@;
        let server_id: Option<u64> = CoreClient::parse_server_id_from_target(target);
        if let Some(id) = server_id {
            let mut i: usize = 0;
            while i < addrs.len()
                invariant
                    i <= addrs@.len(),
                    target_server_id(target@) == Some(id),
                    found@ =~= before + record_endpoints(target@, addrs@).take(i as int),
                decreases addrs@.len() - i,
            {
                found.push(ServerEndpoint { addr: addrs[i], server_id: Some(id) });
                i = i + 1;
            }
            assert(record_endpoints(target@, addrs@).take(i as int) =~= record_endpoints(
                target@,
                addrs@,
            ));
        }
        assert(found@ =~= before + record_endpoints(target@, addrs@));
    }

    /// What discovery found, unless it found nothing.
    pub fn discovered(found: Vec<ServerEndpoint>) -> (servers: Result<
        Vec<ServerEndpoint>,
        CoreError,
    >)
        ensures
            match servers {
                Ok(endpoints) => endpoints@ == found@ && found@.len() > 0,
                Err(e) => found@.len() == 0 && e@ == CoreErrorView::Dns("No SRV servers found"@),
            },
    {
        if found.len() == 0 {
            return Err(CoreError::Dns("No SRV servers found".to_owned()));
        }
        Ok(found)
    }

    /// The membership for one request, unless it is empty.
    pub fn membership(servers: Vec<ServerEndpoint>) -> (resolved: Result<
        ResolvedTargets,
        CoreError,
    >)
        ensures
            match resolved {
                Ok(targets) => targets@ == servers@ && servers@.len() > 0,
                Err(e) => servers@.len() == 0 && e@ == CoreErrorView::Dns("No servers available"@),
            },
    {
        if servers.len() == 0 {
            return Err(CoreError::Dns("No servers available".to_owned()));
        }
        Ok(ResolvedTargets::new(servers))
    }

    /// Whether discovered servers are older than they may be, this many whole
    /// seconds after the last discovery.
    pub fn dns_refresh_due(&self, elapsed_s: u64) -> (due: bool)
        ensures
            due == (elapsed_s > self@.dns_refresh_interval_s),
    {
        elapsed_s > self.dns_refresh_interval_s()
    }

    /// The age in seconds that the discovery state of a new client is given,
    /// so that its first use discovers servers.
    pub fn initial_discovery_age_s(&self) -> (age: u64)
        ensures
            self@.dns_refresh_interval_s < u64::MAX ==> age == self@.dns_refresh_interval_s + 1,
            self@.dns_refresh_interval_s == u64::MAX ==> age == u64::MAX,
    {
        self.dns_refresh_interval_s().saturating_add(1)
    }
}

} // verus!
