//! Which request a packet responds to.

use std::collections::HashMap;

use vstd::prelude::*;

use crate::client::CoreClient;
use crate::response_wire;
use crate::wire;

verus! {

broadcast use vstd::std_specs::hash::group_hash_axioms;

/// The requests under way, each with what its responses are handed to.
pub struct Inflight<T> {
    entries: HashMap<u128, T>,
}

impl<T> View for Inflight<T> {
    type V = Map<Seq<u8>, T>;

    closed spec fn view(&self) -> Map<Seq<u8>, T> {
        Map::new(
            |id: Seq<u8>| id.len() == 16 && self.entries@.contains_key(wire::le_value(id) as u128),
            |id: Seq<u8>| self.entries@[wire::le_value(id) as u128],
        )
    }
}

/// Different request identifiers are different numbers.
proof fn lemma_key(id: Seq<u8>)
    requires
        id.len() == 16,
    ensures
        wire::le_value(id) <= u128::MAX,
{
    wire::lemma_le_value_round_trip(id);
    wire::lemma_byte_range_16();
}

impl<T> Inflight<T> {
    /// No request.
    pub fn new() -> (inflight: Self)
        ensures
            inflight@ == Map::<Seq<u8>, T>::empty(),
    {
        let inflight: Inflight<T> = Inflight { entries: HashMap::new() };
        assert(inflight@ =~= Map::<Seq<u8>, T>::empty());
        inflight
    }

    /// Takes a request down.
    pub fn register(&mut self, request_id: &[u8; 16], receiver: T)
        ensures
            final(self)@ == old(self)@.insert(request_id@, receiver),
    {
        let ghost before = self@;
        let key: u128 = wire::read_u128(request_id);
        self.entries.insert(key, receiver);
        proof {
            assert forall|id: Seq<u8>| id.len() == 16 && wire::le_value(id) as u128
                == key implies id == request_id@ by {
                lemma_key(id);
                wire::lemma_le_value_injective(id, request_id@);
            }
            assert(self@ =~= before.insert(request_id@, receiver));
        }
    }

    /// Strikes a request out, whether it was answered or given up.
    pub fn unregister(&mut self, request_id: &[u8; 16])
        ensures
            final(self)@ == old(self)@.remove(request_id@),
    {
        let ghost before = self@;
        let key: u128 = wire::read_u128(request_id);
        self.entries.remove(&key);
        proof {
            assert forall|id: Seq<u8>| id.len() == 16 && wire::le_value(id) as u128
                == key implies id == request_id@ by {
                lemma_key(id);
                wire::lemma_le_value_injective(id, request_id@);
            }
            assert(self@ =~= before.remove(request_id@));
        }
    }

    /// Where a packet belongs: to the request under way whose identifier its
    /// header carries.
    pub fn route(&self, data: &[u8]) -> (receiver: Option<&T>)
        ensures
            match receiver {
                Some(found) => response_wire::peeked_request_id(data@) matches Some(id)
                    && self@.contains_key(id) && *found == self@[id],
                None => response_wire::peeked_request_id(data@) matches Some(id)
                    ==> !self@.contains_key(id),
            },
    {
        match CoreClient::peek_request_id(data) {
            Some(request_id) => {
                let key: u128 = wire::read_u128(&request_id);
                self.entries.get(&key)
            },
            None => None,
        }
    }
}

} // verus!
