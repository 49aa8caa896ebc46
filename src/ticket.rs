//! Invitation tickets: a topic and a set of bootstrap endpoint keys.

use vstd::prelude::*;
use crate::codec::{
    byte_seqs, bytes_equal, decode_payload, decoded, encode_payload, encoded, hex_decode,
    hex_encode, ticket_parts_ok,
};
use crate::endpoint::{KEY_LEN, is_endpoint_key, chars_of, string_of_chars};
use crate::error::StreamError;

verus! {

/// A topic plus the endpoints that help a newcomer find the group.
///
/// The bootstrap keys are held without repetition; their order carries no meaning.
pub struct Ticket {
    pub topic: Vec<u8>,
    pub bootstrap: Vec<Vec<u8>>,
}

impl Ticket {
    /// The bootstrap keys in the order held.
    pub open spec fn keys(&self) -> Seq<Seq<u8>> {
        byte_seqs(self.bootstrap@)
    }

    /// The bootstrap keys as a set.
    pub open spec fn bootstrap_set(&self) -> Set<Seq<u8>> {
        Set::new(|k: Seq<u8>| self.keys().contains(k))
    }

    /// A 32-byte topic and at most `u32::MAX` distinct, valid bootstrap keys.
    pub open spec fn wf(&self) -> bool {
        ticket_parts_ok(self.topic@, self.keys())
    }

    /// A ticket for `topic` with no bootstrap keys.
    pub fn new(topic: Vec<u8>) -> (r: Ticket)
        requires
            topic@.len() == KEY_LEN,
        ensures
            r.wf(),
            r.topic@ == topic@,
            r.keys() == Seq::<Seq<u8>>::empty(),
    {
        let r = Ticket { topic, bootstrap: Vec::new() };
        assert(r.keys() =~= Seq::<Seq<u8>>::empty());
        r
    }

    /// Whether `k` is among the bootstrap keys.
    pub fn contains_key(&self, k: &Vec<u8>) -> (r: bool)
        ensures
            r == self.bootstrap_set().contains(k@),
    {
        let mut i: usize = 0;
        while i < self.bootstrap.len()
            invariant
                i <= self.bootstrap@.len(),
                forall|m: int| 0 <= m < i ==> self.keys()[m] != k@,
            decreases self.bootstrap@.len() - i,
        {
            if bytes_equal(&self.bootstrap[i], k) {
                assert(self.keys()[i as int] == k@);
                return true;
            }
            i = i + 1;
        }
        false
    }

    /// Adds a bootstrap key; a key already held is not added twice.
    pub fn insert(&mut self, k: Vec<u8>)
        requires
            old(self).wf(),
            old(self).keys().len() < u32::MAX,
            k@.len() == KEY_LEN,
            is_endpoint_key(k@),
        ensures
            final(self).wf(),
            final(self).topic == old(self).topic,
            final(self).bootstrap_set() == old(self).bootstrap_set().insert(k@),
            final(self).keys().len() <= old(self).keys().len() + 1,
    {
        if self.contains_key(&k) {
            assert(self.bootstrap_set().insert(k@) =~= self.bootstrap_set());
            return;
        }
        let ghost before = self.keys();
        self.bootstrap.push(k);
        assert(self.keys() =~= before.push(k@));
        assert(self.bootstrap_set() =~= old(self).bootstrap_set().insert(k@)) by {
            assert forall|x: Seq<u8>| self.keys().contains(x) <==> (before.contains(x) || x == k@) by {
                if self.keys().contains(x) {
                    let m = choose|m: int| 0 <= m < self.keys().len() && self.keys()[m] == x;
                    if m < before.len() {
                        assert(before[m] == x);
                    }
                }
                if before.contains(x) {
                    let m = choose|m: int| 0 <= m < before.len() && before[m] == x;
                    assert(self.keys()[m] == x);
                }
                if x == k@ {
                    assert(self.keys()[before.len() as int] == x);
                }
            }
        }
    }

    /// The ticket as shareable text: lowercase hex of the versioned payload.
    pub fn serialize_ticket(&self) -> (r: String)
        requires
            self.wf(),
            2 * (37 + 32 * self.keys().len()) <= usize::MAX,
        ensures
            r@ == encoded(self.topic@, self.keys()),
    {
        assert forall|i: int| 0 <= i < self.bootstrap@.len() implies (#[trigger] self.bootstrap@[i])@.len() == KEY_LEN by {
            assert(self.keys()[i] == self.bootstrap@[i]@);
        }
        let bytes = encode_payload(&self.topic, &self.bootstrap);
        let cs = hex_encode(&bytes);
        string_of_chars(&cs)
    }

    /// Reads a ticket from its text; fails with `InvalidTicket` on anything malformed.
    pub fn deserialize_ticket(s: &str) -> (r: Result<Ticket, StreamError>)
        ensures
            match r {
                Ok(t) => t.wf() && decoded(s@) == Some((t.topic@, t.keys())),
                Err(e) => e == StreamError::InvalidTicket && decoded(s@) is None,
            },
    {
        let cs = chars_of(s);
        match hex_decode(&cs) {
            None => Err(StreamError::InvalidTicket),
            Some(bytes) => match decode_payload(&bytes) {
                None => Err(StreamError::InvalidTicket),
                Some((topic, bootstrap)) => Ok(Ticket { topic, bootstrap }),
            },
        }
    }
}

/// Decoding a ticket's text yields the same topic and the same bootstrap keys.
pub proof fn lemma_ticket_round_trip(t: Ticket)
    requires
        t.wf(),
    ensures
        decoded(encoded(t.topic@, t.keys())) == Some((t.topic@, t.keys())),
{
    crate::codec::lemma_decode_encode(t.topic@, t.keys());
}

} // verus!
